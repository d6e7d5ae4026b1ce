//! Virtual file system: a directory tree owned from a single root, whose
//! file contents live only in memory-manager frames.  Paths are resolved
//! against a current working directory tracked as a list of segments.

use vstd::prelude::*;
use crate::KernelError;
use crate::utils::{
    contains_char, is_unix_symbol, join_path, path_segments, render_path, seg_views, split_path,
    str_eq,
};
use crate::vmm::{
    in_use_frames, lemma_bytes_at_preserved, lemma_in_use_bounds, pages_needed, Vmm,
    DEFAULT_PAGE_SIZE,
};
use crate::vpm::Vpm;

verus! {

/// A file: metadata plus the ordered list of virtual addresses that back
/// its bytes.  The order of `vmm_address` is significant: bytes are
/// reconstructed by visiting the addresses in this stored order.
pub struct File {
    pub name: String,
    pub path: String,
    pub vmm_address: Vec<u64>,
    pub size: u64,
}

/// A directory: named children, each owned by its parent.  The parent of
/// a directory is found by walking from the root, so no stale back
/// references exist.
pub struct Directory {
    pub name: String,
    pub files: Vec<File>,
    pub subdirectories: Vec<Directory>,
}

impl Directory {
    /// A fresh, empty directory.
    pub fn new(name: &str) -> (r: Directory)
        ensures
            r.name@ == name@,
            r.files@.len() == 0,
            r.subdirectories@.len() == 0,
            r.wf(),
    {
        Directory { name: name.to_owned(), files: Vec::new(), subdirectories: Vec::new() }
    }

    /// File names and subdirectory names are unique within this directory.
    pub open spec fn names_ok(self) -> bool {
        &&& forall|i: int, j: int|
            0 <= i < j < self.files@.len() ==> (#[trigger] self.files@[i]).name@ != (
            #[trigger] self.files@[j]).name@
        &&& forall|i: int, j: int|
            0 <= i < j < self.subdirectories@.len() ==> (#[trigger] self.subdirectories@[i]).name@
                != (#[trigger] self.subdirectories@[j]).name@
    }

    /// Unique names at every level of the tree.
    pub open spec fn wf(self) -> bool
        decreases self,
    {
        &&& self.names_ok()
        &&& forall|i: int|
            0 <= i < self.subdirectories@.len() ==> (#[trigger] self.subdirectories@[i]).wf()
    }

    pub open spec fn has_file(self, name: Seq<char>) -> bool {
        exists|i: int| 0 <= i < self.files@.len() && (#[trigger] self.files@[i]).name@ == name
    }

    pub open spec fn file_index(self, name: Seq<char>) -> int {
        choose|i: int| 0 <= i < self.files@.len() && (#[trigger] self.files@[i]).name@ == name
    }

    /// The file of that name; meaningful only when `has_file(name)`.
    pub open spec fn file(self, name: Seq<char>) -> File {
        self.files@[self.file_index(name)]
    }

    pub open spec fn has_subdir(self, name: Seq<char>) -> bool {
        exists|i: int|
            0 <= i < self.subdirectories@.len() && (#[trigger] self.subdirectories@[i]).name@
                == name
    }

    pub open spec fn subdir_index(self, name: Seq<char>) -> int {
        choose|i: int|
            0 <= i < self.subdirectories@.len() && (#[trigger] self.subdirectories@[i]).name@
                == name
    }

    /// The subdirectory of that name; meaningful only when `has_subdir(name)`.
    pub open spec fn subdir(self, name: Seq<char>) -> Directory {
        self.subdirectories@[self.subdir_index(name)]
    }

    /// Follow a segment path down from this directory.
    pub open spec fn lookup(self, segs: Seq<Seq<char>>) -> Option<Directory>
        decreases segs.len(),
    {
        if segs.len() == 0 {
            Some(self)
        } else if self.has_subdir(segs[0]) {
            self.subdir(segs[0]).lookup(segs.skip(1))
        } else {
            None
        }
    }

    /// The subdirectory found at index `i` is the one `subdir` names.
    pub proof fn lemma_subdir_at(self, name: Seq<char>, i: int)
        requires
            forall|j: int, k: int|
                0 <= j < k < self.subdirectories@.len() ==> (
                #[trigger] self.subdirectories@[j]).name@ != (
                #[trigger] self.subdirectories@[k]).name@,
            0 <= i < self.subdirectories@.len(),
            self.subdirectories@[i].name@ == name,
        ensures
            self.has_subdir(name),
            self.subdir_index(name) == i,
            self.subdir(name) == self.subdirectories@[i],
    {
        assert(self.has_subdir(name));
        let k = self.subdir_index(name);
        if k < i {
            assert(self.subdirectories@[k].name@ != self.subdirectories@[i].name@);
        } else if k > i {
            assert(self.subdirectories@[i].name@ != self.subdirectories@[k].name@);
        }
    }

    /// The file found at index `i` is the one `file` names.
    pub proof fn lemma_file_at(self, name: Seq<char>, i: int)
        requires
            forall|j: int, k: int|
                0 <= j < k < self.files@.len() ==> (#[trigger] self.files@[j]).name@ != (
                #[trigger] self.files@[k]).name@,
            0 <= i < self.files@.len(),
            self.files@[i].name@ == name,
        ensures
            self.has_file(name),
            self.file_index(name) == i,
            self.file(name) == self.files@[i],
    {
        assert(self.has_file(name));
        let k = self.file_index(name);
        if k < i {
            assert(self.files@[k].name@ != self.files@[i].name@);
        } else if k > i {
            assert(self.files@[i].name@ != self.files@[k].name@);
        }
    }

    /// Every directory a path reaches in a well-formed tree is well formed.
    pub proof fn lemma_lookup_wf(self, segs: Seq<Seq<char>>)
        requires
            self.wf(),
            self.lookup(segs) is Some,
        ensures
            self.lookup(segs)->Some_0.wf(),
        decreases segs.len(),
    {
        if segs.len() > 0 {
            self.subdir(segs[0]).lemma_lookup_wf(segs.skip(1));
        }
    }
}

/// The file that the pair (directory path, file name) reaches, if any.
pub open spec fn file_at(root: Directory, p: Seq<Seq<char>>, n: Seq<char>) -> Option<File> {
    match root.lookup(p) {
        Some(dir) => if dir.has_file(n) {
            Some(dir.file(n))
        } else {
            None
        },
        None => None,
    }
}

/// The addresses of a file are all mapped and none repeats.
pub open spec fn file_ok(f: File, vmm: Vmm) -> bool {
    &&& forall|i: int| 0 <= i < f.vmm_address@.len() ==> vmm.has_va(#[trigger] f.vmm_address@[i])
    &&& forall|i: int, j: int|
        0 <= i < j < f.vmm_address@.len() ==> f.vmm_address@[i] != f.vmm_address@[j]
}

/// No address appears in both lists.
pub open spec fn addrs_disjoint(a: Seq<u64>, b: Seq<u64>) -> bool {
    forall|i: int, j: int| 0 <= i < a.len() && 0 <= j < b.len() ==> a[i] != b[j]
}

/// Find a subdirectory by name.
fn find_subdir_index(dir: &Directory, name: &str) -> (r: Option<usize>)
    ensures
        match r {
            Some(i) => i < dir.subdirectories@.len() && dir.subdirectories@[i as int].name@
                == name@ && dir.has_subdir(name@),
            None => !dir.has_subdir(name@),
        },
{
    let mut i: usize = 0;
    while i < dir.subdirectories.len()
        invariant
            i <= dir.subdirectories@.len(),
            forall|k: int| 0 <= k < i ==> (#[trigger] dir.subdirectories@[k]).name@ != name@,
        decreases dir.subdirectories@.len() - i,
    {
        if str_eq(dir.subdirectories[i].name.as_str(), name) {
            return Some(i);
        }
        i = i + 1;
    }
    None
}

/// Find a file by name.
fn find_file_index(dir: &Directory, name: &str) -> (r: Option<usize>)
    ensures
        match r {
            Some(i) => i < dir.files@.len() && dir.files@[i as int].name@ == name@ && dir.has_file(
                name@,
            ),
            None => !dir.has_file(name@),
        },
{
    let mut i: usize = 0;
    while i < dir.files.len()
        invariant
            i <= dir.files@.len(),
            forall|k: int| 0 <= k < i ==> (#[trigger] dir.files@[k]).name@ != name@,
        decreases dir.files@.len() - i,
    {
        if str_eq(dir.files[i].name.as_str(), name) {
            return Some(i);
        }
        i = i + 1;
    }
    None
}

/// Copy a list of addresses.
fn copy_addrs(v: &Vec<u64>) -> (r: Vec<u64>)
    ensures
        r@ == v@,
{
    let mut r: Vec<u64> = Vec::new();
    let mut i: usize = 0;
    while i < v.len()
        invariant
            i <= v@.len(),
            r@ == v@.take(i as int),
        decreases v@.len() - i,
    {
        r.push(v[i]);
        proof {
            assert(v@.take(i as int + 1) =~= v@.take(i as int).push(v@[i as int]));
        }
        i = i + 1;
    }
    proof {
        assert(v@.take(v@.len() as int) =~= v@);
    }
    r
}

/// Copy a list of segments.
fn copy_segs(v: &Vec<String>) -> (r: Vec<String>)
    ensures
        r@ == v@,
{
    let mut r: Vec<String> = Vec::new();
    let mut i: usize = 0;
    while i < v.len()
        invariant
            i <= v@.len(),
            r@ == v@.take(i as int),
        decreases v@.len() - i,
    {
        r.push(v[i].clone());
        proof {
            assert(v@.take(i as int + 1) =~= v@.take(i as int).push(v@[i as int]));
        }
        i = i + 1;
    }
    proof {
        assert(v@.take(v@.len() as int) =~= v@);
    }
    r
}

/// Walk a segment path down from `d`.
fn lookup_dir<'a>(d: &'a Directory, segs: &Vec<String>, i: usize) -> (r: Option<&'a Directory>)
    requires
        d.wf(),
        i <= segs@.len(),
    ensures
        match r {
            Some(found) => d.lookup(seg_views(segs@).skip(i as int)) == Some(*found)
                && found.wf(),
            None => d.lookup(seg_views(segs@).skip(i as int)) is None,
        },
    decreases segs@.len() - i,
{
    if i == segs.len() {
        proof {
            assert(seg_views(segs@).skip(i as int) =~= Seq::<Seq<char>>::empty());
        }
        return Some(d);
    }
    let ghost vs = seg_views(segs@).skip(i as int);
    proof {
        assert(vs[0] == segs@[i as int]@);
        assert(vs.skip(1) =~= seg_views(segs@).skip(i as int + 1));
    }
    match find_subdir_index(d, segs[i].as_str()) {
        Some(j) => {
            proof {
                d.lemma_subdir_at(segs@[i as int]@, j as int);
            }
            lookup_dir(&d.subdirectories[j], segs, i + 1)
        },
        None => None,
    }
}

/// The file system: the root of the owned tree, the current working
/// directory as a list of segments, the memory manager that stores all
/// file contents, and the process identity the shell runs under.
pub struct Vfs {
    pub root: Directory,
    pub cwd: Vec<String>,
    pub vmm: Vmm,
    pub vpm: Vpm,
}

impl Vfs {
    /// The well-formedness of the whole system: unique names in the tree,
    /// a consistent memory manager, and every file's pages mapped, held
    /// once, and owned by that file alone.
    pub open spec fn inv(self) -> bool {
        &&& self.root.wf()
        &&& self.vmm.wf()
        &&& self.vpm.wf()
        &&& forall|p: Seq<Seq<char>>, n: Seq<char>|
            (#[trigger] file_at(self.root, p, n)) matches Some(f) ==> file_ok(f, self.vmm)
        &&& forall|p1: Seq<Seq<char>>, n1: Seq<char>, p2: Seq<Seq<char>>, n2: Seq<char>|
            #![trigger file_at(self.root, p1, n1), file_at(self.root, p2, n2)]
            ((p1 != p2 || n1 != n2) && file_at(self.root, p1, n1) is Some && file_at(
                self.root,
                p2,
                n2,
            ) is Some) ==> addrs_disjoint(
                file_at(self.root, p1, n1)->Some_0.vmm_address@,
                file_at(self.root, p2, n2)->Some_0.vmm_address@,
            )
    }

    /// The directory the cwd points at, when it still exists.
    pub open spec fn cwd_dir(self) -> Option<Directory> {
        self.root.lookup(seg_views(self.cwd@))
    }

    /// A fresh file system over the given process identity and memory
    /// manager: an empty root and the root as working directory.
    pub fn new(vpm: Vpm, vmm: Vmm) -> (r: Vfs)
        requires
            vmm.wf(),
            vpm.wf(),
        ensures
            r.inv(),
            r.cwd@.len() == 0,
            r.root.files@.len() == 0,
            r.root.subdirectories@.len() == 0,
            r.vmm == vmm,
            r.vpm == vpm,
            forall|p: Seq<Seq<char>>, n: Seq<char>| file_at(r.root, p, n) is None,
    {
        let root = Directory::new("/");
        let r = Vfs { root, cwd: Vec::new(), vmm, vpm };
        proof {
            assert forall|p: Seq<Seq<char>>, n: Seq<char>| file_at(r.root, p, n) is None by {
                if p.len() == 0 {
                    assert(r.root.lookup(p) == Some(r.root));
                } else {
                    assert(!r.root.has_subdir(p[0]));
                }
            }
        }
        r
    }

    /// The textual form of the current working directory.
    pub fn pwd(&self) -> (r: String)
        ensures
            r@ == join_path(seg_views(self.cwd@)),
    {
        render_path(&self.cwd)
    }

    /// Change the working directory: `.` is a no-op, `/` resets to the
    /// root, `..` moves to the parent (a no-op at the root), and any
    /// other path is resolved against the cwd — or against the root when
    /// absolute — and must name an existing directory.
    pub fn change_dir(&mut self, dir: &str) -> (r: Result<(), KernelError>)
        requires
            old(self).inv(),
        ensures
            final(self).inv(),
            final(self).root == old(self).root,
            final(self).vmm == old(self).vmm,
            final(self).vpm == old(self).vpm,
            dir@ == "."@ ==> r is Ok && final(self).cwd == old(self).cwd,
            dir@ == "/"@ ==> r is Ok && final(self).cwd@.len() == 0,
            dir@ == ".."@ ==> r is Ok && seg_views(final(self).cwd@) == if old(
                self,
            ).cwd@.len() == 0 {
                seg_views(old(self).cwd@)
            } else {
                seg_views(old(self).cwd@).drop_last()
            },
            dir@ != "."@ && dir@ != "/"@ && dir@ != ".."@ ==> {
                let target = resolve(seg_views(old(self).cwd@), dir@);
                &&& (r is Ok <==> old(self).root.lookup(target) is Some)
                &&& r is Ok ==> seg_views(final(self).cwd@) == target
                &&& r is Err ==> final(self).cwd == old(self).cwd && r == Err::<(), KernelError>(
                    KernelError::NotFound,
                )
            },
    {
        proof {
            reveal_strlit(".");
            reveal_strlit("/");
            reveal_strlit("..");
        }
        if str_eq(dir, ".") {
            return Ok(());
        }
        if str_eq(dir, "/") {
            self.cwd = Vec::new();
            return Ok(());
        }
        if str_eq(dir, "..") {
            if self.cwd.len() > 0 {
                let ghost before = self.cwd@;
                self.cwd.pop();
                proof {
                    assert(self.cwd@ =~= before.drop_last());
                    assert(seg_views(self.cwd@) =~= seg_views(before).drop_last());
                }
            }
            return Ok(());
        }
        let absolute = dir.unicode_len() > 0 && dir.get_char(0) == '/';
        let mut segs = split_path(dir);
        let mut target: Vec<String> = if absolute {
            Vec::new()
        } else {
            copy_segs(&self.cwd)
        };
        let ghost base = target@;
        target.append(&mut segs);
        proof {
            assert(seg_views(target@) =~= seg_views(base) + path_segments(dir@));
            if absolute {
                assert(seg_views(target@) =~= resolve(seg_views(self.cwd@), dir@));
            } else {
                assert(dir@.len() == 0 || dir@[0] != '/');
                assert(seg_views(target@) =~= resolve(seg_views(self.cwd@), dir@));
            }
        }
        let found = lookup_dir(&self.root, &target, 0).is_some();
        proof {
            assert(seg_views(target@).skip(0) =~= seg_views(target@));
        }
        if found {
            self.cwd = target;
            Ok(())
        } else {
            Err(KernelError::NotFound)
        }
    }

    /// List the working directory: the files with their sizes, then the
    /// subdirectory names.
    pub fn list(&self) -> (r: Result<(Vec<(String, u64)>, Vec<String>), KernelError>)
        requires
            self.inv(),
        ensures
            r is Ok <==> self.cwd_dir() is Some,
            r is Err ==> r == Err::<(Vec<(String, u64)>, Vec<String>), KernelError>(
                KernelError::NotFound,
            ),
            r matches Ok(pair) ==> {
                let d = self.cwd_dir()->Some_0;
                &&& pair.0@.len() == d.files@.len()
                &&& forall|i: int|
                    0 <= i < d.files@.len() ==> (#[trigger] pair.0@[i]).0@ == d.files@[i].name@
                        && pair.0@[i].1 == d.files@[i].size
                &&& pair.1@.len() == d.subdirectories@.len()
                &&& forall|i: int|
                    0 <= i < d.subdirectories@.len() ==> (#[trigger] pair.1@[i])@
                        == d.subdirectories@[i].name@
            },
    {
        let d = match lookup_dir(&self.root, &self.cwd, 0) {
            Some(d) => d,
            None => {
                proof {
                    assert(seg_views(self.cwd@).skip(0) =~= seg_views(self.cwd@));
                }
                return Err(KernelError::NotFound);
            },
        };
        proof {
            assert(seg_views(self.cwd@).skip(0) =~= seg_views(self.cwd@));
        }
        let mut files: Vec<(String, u64)> = Vec::new();
        let mut i: usize = 0;
        while i < d.files.len()
            invariant
                i <= d.files@.len(),
                files@.len() == i,
                forall|k: int|
                    0 <= k < i ==> (#[trigger] files@[k]).0@ == d.files@[k].name@ && files@[k].1
                        == d.files@[k].size,
            decreases d.files@.len() - i,
        {
            files.push((d.files[i].name.clone(), d.files[i].size));
            i = i + 1;
        }
        let mut dirs: Vec<String> = Vec::new();
        let mut i: usize = 0;
        while i < d.subdirectories.len()
            invariant
                i <= d.subdirectories@.len(),
                dirs@.len() == i,
                forall|k: int|
                    0 <= k < i ==> (#[trigger] dirs@[k])@ == d.subdirectories@[k].name@,
            decreases d.subdirectories@.len() - i,
        {
            dirs.push(d.subdirectories[i].name.clone());
            i = i + 1;
        }
        Ok((files, dirs))
    }
}

/// A freshly created run of nested directories: one per remaining
/// segment, each empty but for the next.
pub open spec fn is_chain(d: Directory, segs: Seq<Seq<char>>, i: int) -> bool
    decreases segs.len() - i,
{
    if i < 0 || i >= segs.len() {
        false
    } else {
        &&& d.name@ == segs[i]
        &&& d.files@.len() == 0
        &&& if i == segs.len() - 1 {
            d.subdirectories@.len() == 0
        } else {
            d.subdirectories@.len() == 1 && is_chain(d.subdirectories@[0], segs, i + 1)
        }
    }
}

/// How `add_directory_recursive` rewrites the tree: descend along the
/// existing segments, then hang a fresh chain of the missing ones.
pub open spec fn add_rel(a: Directory, b: Directory, segs: Seq<Seq<char>>, i: int) -> bool
    decreases segs.len() - i,
{
    if i >= segs.len() {
        &&& b.name@ == a.name@
        &&& b.files@ == a.files@
        &&& b.subdirectories@ == a.subdirectories@
    } else if a.has_subdir(segs[i]) {
        let idx = a.subdir_index(segs[i]);
        &&& b.name@ == a.name@
        &&& b.files@ == a.files@
        &&& b.subdirectories@.len() == a.subdirectories@.len()
        &&& forall|j: int|
            0 <= j < a.subdirectories@.len() && j != idx ==> b.subdirectories@[j]
                == a.subdirectories@[j]
        &&& b.subdirectories@[idx].name@ == segs[i]
        &&& add_rel(a.subdir(segs[i]), b.subdirectories@[idx], segs, i + 1)
    } else {
        &&& b.name@ == a.name@
        &&& b.files@ == a.files@
        &&& b.subdirectories@.len() == a.subdirectories@.len() + 1
        &&& forall|j: int|
            0 <= j < a.subdirectories@.len() ==> b.subdirectories@[j] == a.subdirectories@[j]
        &&& is_chain(b.subdirectories@.last(), segs, i)
    }
}

/// How many directories along the path do not exist yet.
pub open spec fn missing_dirs(a: Directory, segs: Seq<Seq<char>>, i: int) -> int
    decreases segs.len() - i,
{
    if i >= segs.len() {
        0
    } else if a.has_subdir(segs[i]) {
        missing_dirs(a.subdir(segs[i]), segs, i + 1)
    } else {
        segs.len() - i
    }
}

/// Total number of directories in a tree, the root included.
pub open spec fn count_dirs(d: Directory) -> int
    decreases d,
{
    1 + count_dirs_seq(d.subdirectories@)
}

pub open spec fn count_dirs_seq(s: Seq<Directory>) -> int
    decreases s,
{
    if s.len() == 0 {
        0
    } else {
        count_dirs_seq(s.drop_last()) + count_dirs(s.last())
    }
}

pub proof fn lemma_count_seq_push(s: Seq<Directory>, d: Directory)
    ensures
        count_dirs_seq(s.push(d)) == count_dirs_seq(s) + count_dirs(d),
{
    assert(s.push(d).drop_last() =~= s);
    assert(s.push(d).last() == d);
}

pub proof fn lemma_count_seq_update(s: Seq<Directory>, j: int, d: Directory)
    requires
        0 <= j < s.len(),
    ensures
        count_dirs_seq(s.update(j, d)) == count_dirs_seq(s) - count_dirs(s[j]) + count_dirs(d),
    decreases s.len(),
{
    if j == s.len() - 1 {
        assert(s.update(j, d).drop_last() =~= s.drop_last());
        assert(s.update(j, d).last() == d);
    } else {
        assert(s.update(j, d).drop_last() =~= s.drop_last().update(j, d));
        assert(s.update(j, d).last() == s.last());
        lemma_count_seq_update(s.drop_last(), j, d);
        assert(s.drop_last()[j] == s[j]);
    }
}

pub proof fn lemma_count_chain(d: Directory, segs: Seq<Seq<char>>, i: int)
    requires
        is_chain(d, segs, i),
    ensures
        count_dirs(d) == segs.len() - i,
    decreases segs.len() - i,
{
    if i == segs.len() - 1 {
        assert(d.subdirectories@ =~= Seq::<Directory>::empty());
        assert(count_dirs_seq(d.subdirectories@) == 0);
    } else {
        lemma_count_chain(d.subdirectories@[0], segs, i + 1);
        assert(d.subdirectories@.drop_last() =~= Seq::<Directory>::empty());
        assert(d.subdirectories@.last() == d.subdirectories@[0]);
        assert(count_dirs_seq(Seq::<Directory>::empty()) == 0);
    }
}

/// Creating directories adds exactly the missing ones to the count.
pub proof fn lemma_add_rel_count(a: Directory, b: Directory, segs: Seq<Seq<char>>, i: int)
    requires
        add_rel(a, b, segs, i),
    ensures
        count_dirs(b) == count_dirs(a) + missing_dirs(a, segs, i),
    decreases segs.len() - i,
{
    if i >= segs.len() {
    } else if a.has_subdir(segs[i]) {
        let idx = a.subdir_index(segs[i]);
        lemma_add_rel_count(a.subdir(segs[i]), b.subdirectories@[idx], segs, i + 1);
        assert(b.subdirectories@ =~= a.subdirectories@.update(idx, b.subdirectories@[idx]));
        lemma_count_seq_update(a.subdirectories@, idx, b.subdirectories@[idx]);
    } else {
        assert(b.subdirectories@ =~= a.subdirectories@.push(b.subdirectories@.last()));
        lemma_count_seq_push(a.subdirectories@, b.subdirectories@.last());
        lemma_count_chain(b.subdirectories@.last(), segs, i);
    }
}

/// A path is fully present exactly when nothing along it is missing.
pub proof fn lemma_missing_iff_lookup(a: Directory, segs: Seq<Seq<char>>, i: int)
    requires
        0 <= i <= segs.len(),
    ensures
        missing_dirs(a, segs, i) == 0 <==> a.lookup(segs.skip(i)) is Some,
    decreases segs.len() - i,
{
    if i < segs.len() {
        assert(segs.skip(i)[0] == segs[i]);
        if a.has_subdir(segs[i]) {
            lemma_missing_iff_lookup(a.subdir(segs[i]), segs, i + 1);
            assert(segs.skip(i).skip(1) =~= segs.skip(i + 1));
        }
    } else {
        assert(segs.skip(i) =~= Seq::<Seq<char>>::empty());
    }
}

/// After creating directories, the whole path exists.
pub proof fn lemma_add_rel_exists(a: Directory, b: Directory, segs: Seq<Seq<char>>, i: int)
    requires
        0 <= i <= segs.len(),
        a.wf(),
        add_rel(a, b, segs, i),
    ensures
        missing_dirs(b, segs, i) == 0,
    decreases segs.len() - i,
{
    if i >= segs.len() {
    } else if a.has_subdir(segs[i]) {
        let idx = a.subdir_index(segs[i]);
        let child = b.subdirectories@[idx];
        assert(a.subdir(segs[i]).wf());
        lemma_add_rel_exists(a.subdir(segs[i]), child, segs, i + 1);
        lemma_missing_of_equal_or(b, a, segs, i, idx, child);
    } else {
        let n = b.subdirectories@.len() as int;
        let chain = b.subdirectories@.last();
        assert(b.subdirectories@[n - 1] == chain);
        assert(chain.name@ == segs[i]);
        assert(b.has_subdir(segs[i]));
        let k = b.subdir_index(segs[i]);
        if k != n - 1 {
            assert(b.subdirectories@[k] == a.subdirectories@[k]);
            assert(a.has_subdir(segs[i]));
            assert(false);
        }
        assert(b.subdir(segs[i]) == chain);
        lemma_chain_missing(chain, segs, i);
    }
}

proof fn lemma_chain_missing(d: Directory, segs: Seq<Seq<char>>, i: int)
    requires
        is_chain(d, segs, i),
    ensures
        missing_dirs(d, segs, i + 1) == 0,
    decreases segs.len() - i,
{
    if i < segs.len() - 1 {
        let child = d.subdirectories@[0];
        assert(is_chain(child, segs, i + 1));
        assert(child.name@ == segs[i + 1]);
        assert(d.has_subdir(segs[i + 1]));
        let k = d.subdir_index(segs[i + 1]);
        assert(k == 0);
        assert(d.subdir(segs[i + 1]) == child);
        lemma_chain_missing(child, segs, i + 1);
    }
}

proof fn lemma_missing_of_equal_or(
    b: Directory,
    a: Directory,
    segs: Seq<Seq<char>>,
    i: int,
    idx: int,
    child: Directory,
)
    requires
        0 <= i < segs.len(),
        0 <= idx < b.subdirectories@.len(),
        b.subdirectories@[idx] == child,
        child.name@ == segs[i],
        missing_dirs(child, segs, i + 1) == 0,
        b.subdirectories@.len() == a.subdirectories@.len(),
        forall|j: int|
            0 <= j < a.subdirectories@.len() && j != idx ==> b.subdirectories@[j]
                == a.subdirectories@[j],
        a.names_ok(),
        a.has_subdir(segs[i]),
        idx == a.subdir_index(segs[i]),
    ensures
        missing_dirs(b, segs, i) == 0,
{
    assert(b.has_subdir(segs[i]));
    let k = b.subdir_index(segs[i]);
    if k != idx {
        assert(b.subdirectories@[k] == a.subdirectories@[k]);
        assert(a.subdirectories@[k].name@ == segs[i]);
        a.lemma_subdir_at(segs[i], k);
        assert(false);
    }
    assert(b.subdir(segs[i]) == child);
}

proof fn lemma_chain_wf(d: Directory, segs: Seq<Seq<char>>, i: int)
    requires
        is_chain(d, segs, i),
    ensures
        d.wf(),
    decreases segs.len() - i,
{
    if i < segs.len() - 1 {
        lemma_chain_wf(d.subdirectories@[0], segs, i + 1);
    }
}

/// No file lives anywhere in a freshly created chain.
proof fn lemma_chain_no_files(d: Directory, segs: Seq<Seq<char>>, i: int, q: Seq<Seq<char>>, n: Seq<char>)
    requires
        is_chain(d, segs, i),
    ensures
        file_at(d, q, n) is None,
    decreases q.len(),
{
    if q.len() == 0 {
        assert(!d.has_file(n));
    } else {
        if d.has_subdir(q[0]) {
            let k = d.subdir_index(q[0]);
            assert(i < segs.len() - 1);
            assert(k == 0);
            lemma_chain_no_files(d.subdirectories@[0], segs, i + 1, q.skip(1), n);
        }
    }
}

/// Two directories with the same file list agree on every file lookup.
proof fn lemma_file_congruence(a: Directory, b: Directory, n: Seq<char>)
    requires
        b.files@ == a.files@,
        forall|i: int, j: int|
            0 <= i < j < a.files@.len() ==> (#[trigger] a.files@[i]).name@ != (
            #[trigger] a.files@[j]).name@,
    ensures
        b.has_file(n) <==> a.has_file(n),
        a.has_file(n) ==> b.file(n) == a.file(n),
{
    if a.has_file(n) {
        let ia = a.file_index(n);
        assert(b.files@[ia].name@ == n);
        b.lemma_file_at(n, ia);
        a.lemma_file_at(n, ia);
    }
    if b.has_file(n) {
        let ib = b.file_index(n);
        assert(a.files@[ib].name@ == n);
        assert(a.has_file(n));
    }
}

/// Creating directories neither adds, removes nor moves any file, and
/// keeps the tree well formed.
pub proof fn lemma_add_rel_files(a: Directory, b: Directory, segs: Seq<Seq<char>>, i: int)
    requires
        0 <= i <= segs.len(),
        a.wf(),
        add_rel(a, b, segs, i),
    ensures
        b.wf(),
        forall|p: Seq<Seq<char>>, n: Seq<char>| file_at(b, p, n) == file_at(a, p, n),
    decreases segs.len() - i,
{
    if i >= segs.len() {
        assert(b.wf()) by {
            assert(forall|j: int|
                0 <= j < b.subdirectories@.len() ==> (#[trigger] b.subdirectories@[j])
                    == a.subdirectories@[j]);
        }
        assert forall|p: Seq<Seq<char>>, n: Seq<char>| file_at(b, p, n) == file_at(a, p, n) by {
            if p.len() == 0 {
                lemma_file_congruence(a, b, n);
            } else {
                if a.has_subdir(p[0]) {
                    let j = a.subdir_index(p[0]);
                    a.lemma_subdir_at(p[0], j);
                    assert(b.subdirectories@[j] == a.subdirectories@[j]);
                    b.lemma_subdir_at(p[0], j);
                    assert(b.subdir(p[0]) == a.subdir(p[0]));
                } else {
                    assert(!b.has_subdir(p[0])) by {
                        if b.has_subdir(p[0]) {
                            let j = b.subdir_index(p[0]);
                            assert(a.subdirectories@[j].name@ == p[0]);
                        }
                    }
                }
            }
        }
    } else if a.has_subdir(segs[i]) {
        let x = segs[i];
        let idx = a.subdir_index(x);
        a.lemma_subdir_at(x, idx);
        let child_a = a.subdir(x);
        let child_b = b.subdirectories@[idx];
        assert(child_a.wf());
        lemma_add_rel_files(child_a, child_b, segs, i + 1);
        // subdirectory names are unchanged position by position
        assert forall|j: int|
            0 <= j < b.subdirectories@.len() implies (#[trigger] b.subdirectories@[j]).name@
            == a.subdirectories@[j].name@ by {
            if j != idx {
                assert(b.subdirectories@[j] == a.subdirectories@[j]);
            }
        }
        assert(b.wf()) by {
            assert forall|j: int|
                0 <= j < b.subdirectories@.len() implies (#[trigger] b.subdirectories@[j]).wf() by {
                if j != idx {
                    assert(b.subdirectories@[j] == a.subdirectories@[j]);
                }
            }
        }
        assert forall|p: Seq<Seq<char>>, n: Seq<char>| file_at(b, p, n) == file_at(a, p, n) by {
            if p.len() == 0 {
                lemma_file_congruence(a, b, n);
            } else {
                let h = p[0];
                if a.has_subdir(h) {
                    let j = a.subdir_index(h);
                    a.lemma_subdir_at(h, j);
                    assert(b.subdirectories@[j].name@ == h);
                    b.lemma_subdir_at(h, j);
                    if j == idx {
                        assert(h == x);
                        assert(b.subdir(h) == child_b);
                        assert(a.subdir(h) == child_a);
                        assert(file_at(child_b, p.skip(1), n) == file_at(child_a, p.skip(1), n));
                        assert(file_at(b, p, n) == file_at(child_b, p.skip(1), n));
                        assert(file_at(a, p, n) == file_at(child_a, p.skip(1), n));
                    } else {
                        assert(b.subdirectories@[j] == a.subdirectories@[j]);
                        assert(b.subdir(h) == a.subdir(h));
                    }
                } else {
                    assert(!b.has_subdir(h)) by {
                        if b.has_subdir(h) {
                            let j = b.subdir_index(h);
                            assert(b.subdirectories@[j].name@ == h);
                            assert(a.subdirectories@[j].name@ == h);
                        }
                    }
                }
            }
        }
    } else {
        let x = segs[i];
        let nlen = b.subdirectories@.len() as int;
        let chain = b.subdirectories@.last();
        assert(b.subdirectories@[nlen - 1] == chain);
        lemma_chain_wf(chain, segs, i);
        assert(chain.name@ == x);
        // the new name did not occur before
        assert forall|j: int|
            0 <= j < a.subdirectories@.len() implies (#[trigger] a.subdirectories@[j]).name@
            != x by {
            if a.subdirectories@[j].name@ == x {
                assert(a.has_subdir(x));
            }
        }
        assert(b.wf()) by {
            assert forall|j: int, k: int|
                0 <= j < k < b.subdirectories@.len() implies (
            #[trigger] b.subdirectories@[j]).name@ != (#[trigger] b.subdirectories@[k]).name@ by {
                if k < nlen - 1 {
                    assert(b.subdirectories@[j] == a.subdirectories@[j]);
                    assert(b.subdirectories@[k] == a.subdirectories@[k]);
                } else {
                    assert(b.subdirectories@[j] == a.subdirectories@[j]);
                }
            }
            assert forall|j: int|
                0 <= j < b.subdirectories@.len() implies (#[trigger] b.subdirectories@[j]).wf() by {
                if j < nlen - 1 {
                    assert(b.subdirectories@[j] == a.subdirectories@[j]);
                }
            }
        }
        assert forall|p: Seq<Seq<char>>, n: Seq<char>| file_at(b, p, n) == file_at(a, p, n) by {
            if p.len() == 0 {
                lemma_file_congruence(a, b, n);
            } else {
                let h = p[0];
                if h == x {
                    assert(!a.has_subdir(h));
                    assert(file_at(a, p, n) is None);
                    assert(b.has_subdir(h));
                    let j = b.subdir_index(h);
                    if j != nlen - 1 {
                        assert(b.subdirectories@[j] == a.subdirectories@[j]);
                        assert(a.subdirectories@[j].name@ != x);
                        assert(false);
                    }
                    assert(b.subdir(h) == chain);
                    lemma_chain_no_files(chain, segs, i, p.skip(1), n);
                    assert(file_at(b, p, n) == file_at(chain, p.skip(1), n));
                } else {
                    if a.has_subdir(h) {
                        let j = a.subdir_index(h);
                        a.lemma_subdir_at(h, j);
                        assert(b.subdirectories@[j] == a.subdirectories@[j]);
                        b.lemma_subdir_at(h, j);
                        assert(b.subdir(h) == a.subdir(h));
                    } else {
                        assert(!b.has_subdir(h)) by {
                            if b.has_subdir(h) {
                                let j = b.subdir_index(h);
                                if j < nlen - 1 {
                                    assert(a.subdirectories@[j].name@ == h);
                                } else {
                                    assert(chain.name@ == h);
                                }
                            }
                        }
                    }
                }
            }
        }
    }
}

/// Build the chain of directories for the remaining segments.
fn make_chain(segs: &Vec<String>, i: usize) -> (d: Directory)
    requires
        i < segs@.len(),
    ensures
        is_chain(d, seg_views(segs@), i as int),
        d.wf(),
    decreases segs@.len() - i,
{
    let n = segs.len();
    let mut d = Directory::new(segs[i].as_str());
    if i + 1 < n {
        let child = make_chain(segs, i + 1);
        d.subdirectories.push(child);
    }
    d
}

/// Descend along the segments from `i`, creating what is absent.
fn add_segs(dir: &mut Directory, segs: &Vec<String>, i: usize)
    requires
        old(dir).wf(),
        i <= segs@.len(),
    ensures
        final(dir).wf(),
        add_rel(*old(dir), *final(dir), seg_views(segs@), i as int),
    decreases segs@.len() - i,
{
    if i == segs.len() {
        return ;
    }
    let ghost vs = seg_views(segs@);
    proof {
        assert(vs[i as int] == segs@[i as int]@);
    }
    match find_subdir_index(dir, segs[i].as_str()) {
        Some(j) => {
            proof {
                dir.lemma_subdir_at(vs[i as int], j as int);
            }
            let ghost a = *dir;
            let mut child = dir.subdirectories.remove(j);
            add_segs(&mut child, segs, i + 1);
            let ghost c2 = child;
            dir.subdirectories.insert(j, child);
            proof {
                assert(dir.subdirectories@ =~= a.subdirectories@.update(j as int, c2));
                assert(c2.name@ == a.subdirectories@[j as int].name@);
                assert(add_rel(a, *dir, vs, i as int));
                lemma_add_rel_files(a, *dir, vs, i as int);
            }
        },
        None => {
            let child = make_chain(segs, i);
            let ghost c = child;
            let ghost a = *dir;
            dir.subdirectories.push(child);
            proof {
                assert(dir.subdirectories@ =~= a.subdirectories@.push(c));
                assert(dir.subdirectories@.last() == c);
                assert(add_rel(a, *dir, vs, i as int));
                lemma_add_rel_files(a, *dir, vs, i as int);
            }
        },
    }
}

impl Vfs {
    /// Create a directory path under the working directory, making each
    /// missing segment and descending through the existing ones.
    /// Reserved names are refused; re-running the same path creates
    /// nothing new.
    pub fn add_directory_recursive(&mut self, dirnames: &str) -> (r: Result<(), KernelError>)
        requires
            old(self).inv(),
        ensures
            final(self).inv(),
            final(self).cwd == old(self).cwd,
            final(self).vmm == old(self).vmm,
            final(self).vpm == old(self).vpm,
            r is Ok <==> (old(self).cwd_dir() is Some && !(dirnames@ == "/"@ || dirnames@ == "."@
                || dirnames@ == ".."@)),
            r is Err ==> final(self).root == old(self).root && (if old(self).cwd_dir() is None {
                r == Err::<(), KernelError>(KernelError::NotFound)
            } else {
                r == Err::<(), KernelError>(KernelError::Unsupported)
            }),
            r is Ok ==> ({
                let target = seg_views(old(self).cwd@) + path_segments(dirnames@);
                &&& add_rel(old(self).root, final(self).root, target, 0)
                &&& final(self).root.lookup(target) is Some
                &&& count_dirs(final(self).root) == count_dirs(old(self).root) + missing_dirs(
                    old(self).root,
                    target,
                    0,
                )
                &&& (old(self).root.lookup(target) is Some ==> count_dirs(final(self).root)
                    == count_dirs(old(self).root))
                &&& forall|p: Seq<Seq<char>>, n: Seq<char>|
                    file_at(final(self).root, p, n) == file_at(old(self).root, p, n)
            }),
    {
        proof {
            assert(seg_views(self.cwd@).skip(0) =~= seg_views(self.cwd@));
        }
        if lookup_dir(&self.root, &self.cwd, 0).is_none() {
            return Err(KernelError::NotFound);
        }
        if is_unix_symbol(dirnames) {
            return Err(KernelError::Unsupported);
        }
        let mut full = copy_segs(&self.cwd);
        let mut segs = split_path(dirnames);
        let ghost base = full@;
        full.append(&mut segs);
        let ghost target = seg_views(self.cwd@) + path_segments(dirnames@);
        proof {
            assert(seg_views(full@) =~= target);
        }
        let ghost a = self.root;
        add_segs(&mut self.root, &full, 0);
        proof {
            let b = self.root;
            lemma_add_rel_files(a, b, target, 0);
            lemma_add_rel_count(a, b, target, 0);
            lemma_add_rel_exists(a, b, target, 0);
            lemma_missing_iff_lookup(b, target, 0);
            assert(target.skip(0) =~= target);
            lemma_missing_iff_lookup(a, target, 0);
            assert forall|p: Seq<Seq<char>>, n: Seq<char>|
                (#[trigger] file_at(self.root, p, n)) is Some implies file_ok(
                file_at(self.root, p, n)->Some_0,
                self.vmm,
            ) by {
                assert(file_at(a, p, n) == file_at(b, p, n));
            }
            assert forall|p1: Seq<Seq<char>>, n1: Seq<char>, p2: Seq<Seq<char>>, n2: Seq<char>|
                #![trigger file_at(self.root, p1, n1), file_at(self.root, p2, n2)]
                ((p1 != p2 || n1 != n2) && file_at(self.root, p1, n1) is Some && file_at(
                    self.root,
                    p2,
                    n2,
                ) is Some) implies addrs_disjoint(
                file_at(self.root, p1, n1)->Some_0.vmm_address@,
                file_at(self.root, p2, n2)->Some_0.vmm_address@,
            ) by {
                assert(file_at(a, p1, n1) == file_at(b, p1, n1));
                assert(file_at(a, p2, n2) == file_at(b, p2, n2));
            }
        }
        Ok(())
    }
}

/// Idempotence: one run of directory creation adds exactly the missing
/// directories; a second run of the same path adds none.
pub proof fn lemma_mkdir_idempotent(
    r0: Directory,
    r1: Directory,
    r2: Directory,
    target: Seq<Seq<char>>,
)
    requires
        r0.wf(),
        r1.wf(),
        add_rel(r0, r1, target, 0),
        add_rel(r1, r2, target, 0),
    ensures
        count_dirs(r1) == count_dirs(r0) + missing_dirs(r0, target, 0),
        count_dirs(r2) == count_dirs(r1),
{
    lemma_add_rel_count(r0, r1, target, 0);
    lemma_add_rel_count(r1, r2, target, 0);
    lemma_add_rel_exists(r0, r1, target, 0);
}

/// How a file-level operation rewrites the tree: descend along existing
/// segments; only the file list of the directory at the end changes.
pub open spec fn tree_update_files(a: Directory, b: Directory, segs: Seq<Seq<char>>, i: int) -> bool
    decreases segs.len() - i,
{
    if i >= segs.len() {
        &&& b.name@ == a.name@
        &&& b.subdirectories@ == a.subdirectories@
    } else {
        let idx = a.subdir_index(segs[i]);
        &&& a.has_subdir(segs[i])
        &&& b.name@ == a.name@
        &&& b.files@ == a.files@
        &&& b.subdirectories@.len() == a.subdirectories@.len()
        &&& forall|j: int|
            0 <= j < a.subdirectories@.len() && j != idx ==> b.subdirectories@[j]
                == a.subdirectories@[j]
        &&& b.subdirectories@[idx].name@ == segs[i]
        &&& tree_update_files(a.subdir(segs[i]), b.subdirectories@[idx], segs, i + 1)
    }
}

/// A file-level rewrite leaves every other directory and file alone, and
/// keeps the tree well formed as long as the rewritten file list keeps
/// its names unique.
pub proof fn lemma_tree_update_files(a: Directory, b: Directory, segs: Seq<Seq<char>>, i: int)
    requires
        0 <= i <= segs.len(),
        a.wf(),
        tree_update_files(a, b, segs, i),
    ensures
        a.lookup(segs.skip(i)) is Some,
        b.lookup(segs.skip(i)) is Some,
        b.lookup(segs.skip(i))->Some_0.name@ == a.lookup(segs.skip(i))->Some_0.name@,
        b.lookup(segs.skip(i))->Some_0.subdirectories@ == a.lookup(
            segs.skip(i),
        )->Some_0.subdirectories@,
        (forall|j: int, k: int|
            0 <= j < k < b.lookup(segs.skip(i))->Some_0.files@.len() ==> (#[trigger] b.lookup(
                segs.skip(i),
            )->Some_0.files@[j]).name@ != (#[trigger] b.lookup(segs.skip(i))->Some_0.files@[k]).name@)
            ==> b.wf(),
        forall|p: Seq<Seq<char>>, n: Seq<char>|
            p != segs.skip(i) ==> file_at(b, p, n) == file_at(a, p, n),
    decreases segs.len() - i,
{
    if i >= segs.len() {
        assert(segs.skip(i) =~= Seq::<Seq<char>>::empty());
        assert(a.lookup(segs.skip(i)) == Some(a));
        assert(b.lookup(segs.skip(i)) == Some(b));
        assert forall|p: Seq<Seq<char>>, n: Seq<char>|
            p != segs.skip(i) implies file_at(b, p, n) == file_at(a, p, n) by {
            if p.len() == 0 {
                assert(p =~= segs.skip(i));
            } else {
                if a.has_subdir(p[0]) {
                    let j = a.subdir_index(p[0]);
                    a.lemma_subdir_at(p[0], j);
                    assert(b.subdirectories@[j] == a.subdirectories@[j]);
                    b.lemma_subdir_at(p[0], j);
                    assert(b.subdir(p[0]) == a.subdir(p[0]));
                } else {
                    assert(!b.has_subdir(p[0])) by {
                        if b.has_subdir(p[0]) {
                            let j = b.subdir_index(p[0]);
                            assert(a.subdirectories@[j].name@ == p[0]);
                        }
                    }
                }
            }
        }
        assert((forall|j: int, k: int|
            0 <= j < k < b.lookup(segs.skip(i))->Some_0.files@.len() ==> (#[trigger] b.lookup(
                segs.skip(i),
            )->Some_0.files@[j]).name@ != (#[trigger] b.lookup(segs.skip(i))->Some_0.files@[k]).name@)
            ==> b.wf()) by {
            if forall|j: int, k: int|
                0 <= j < k < b.lookup(segs.skip(i))->Some_0.files@.len() ==> (#[trigger] b.lookup(
                    segs.skip(i),
                )->Some_0.files@[j]).name@ != (#[trigger] b.lookup(
                    segs.skip(i),
                )->Some_0.files@[k]).name@ {
                assert(b.lookup(segs.skip(i))->Some_0 == b);
                assert forall|j: int, k: int|
                    0 <= j < k < b.files@.len() implies (#[trigger] b.files@[j]).name@ != (
                #[trigger] b.files@[k]).name@ by {
                    assert(b.lookup(segs.skip(i))->Some_0.files@[j] == b.files@[j]);
                    assert(b.lookup(segs.skip(i))->Some_0.files@[k] == b.files@[k]);
                }
                assert forall|j: int|
                    0 <= j < b.subdirectories@.len() implies (
                #[trigger] b.subdirectories@[j]).wf() by {
                    assert(b.subdirectories@[j] == a.subdirectories@[j]);
                }
                assert(b.names_ok());
                assert(b.wf());
            }
        }
    } else {
        let x = segs[i];
        let idx = a.subdir_index(x);
        a.lemma_subdir_at(x, idx);
        let child_a = a.subdir(x);
        let child_b = b.subdirectories@[idx];
        assert(child_a.wf());
        lemma_tree_update_files(child_a, child_b, segs, i + 1);
        assert(segs.skip(i)[0] == x);
        assert(segs.skip(i).skip(1) =~= segs.skip(i + 1));
        assert forall|j: int|
            0 <= j < b.subdirectories@.len() implies (#[trigger] b.subdirectories@[j]).name@
            == a.subdirectories@[j].name@ by {
            if j != idx {
                assert(b.subdirectories@[j] == a.subdirectories@[j]);
            }
        }
        b.lemma_subdir_at(x, idx);
        assert(b.subdir(x) == child_b);
        assert(a.lookup(segs.skip(i)) == child_a.lookup(segs.skip(i + 1)));
        assert(b.lookup(segs.skip(i)) == child_b.lookup(segs.skip(i + 1)));
        // well-formedness, conditional on the rewritten leaf
        assert((forall|j: int, k: int|
            0 <= j < k < b.lookup(segs.skip(i))->Some_0.files@.len() ==> (#[trigger] b.lookup(
                segs.skip(i),
            )->Some_0.files@[j]).name@ != (#[trigger] b.lookup(segs.skip(i))->Some_0.files@[k]).name@)
            ==> b.wf()) by {
            if forall|j: int, k: int|
                0 <= j < k < b.lookup(segs.skip(i))->Some_0.files@.len() ==> (#[trigger] b.lookup(
                    segs.skip(i),
                )->Some_0.files@[j]).name@ != (#[trigger] b.lookup(
                    segs.skip(i),
                )->Some_0.files@[k]).name@ {
                assert(child_b.wf());
                assert forall|j: int|
                    0 <= j < b.subdirectories@.len() implies (
                #[trigger] b.subdirectories@[j]).wf() by {
                    if j != idx {
                        assert(b.subdirectories@[j] == a.subdirectories@[j]);
                    }
                }
            }
        }
        assert forall|p: Seq<Seq<char>>, n: Seq<char>|
            p != segs.skip(i) implies file_at(b, p, n) == file_at(a, p, n) by {
            if p.len() == 0 {
                lemma_file_congruence(a, b, n);
            } else {
                let h = p[0];
                if a.has_subdir(h) {
                    let j = a.subdir_index(h);
                    a.lemma_subdir_at(h, j);
                    assert(b.subdirectories@[j].name@ == h);
                    b.lemma_subdir_at(h, j);
                    if j == idx {
                        assert(h == x);
                        assert(p.skip(1) != segs.skip(i + 1)) by {
                            if p.skip(1) == segs.skip(i + 1) {
                                assert(p.len() == segs.skip(i).len());
                                assert forall|t: int|
                                    0 <= t < p.len() implies p[t] == segs.skip(i)[t] by {
                                    if t > 0 {
                                        assert(p[t] == p.skip(1)[t - 1]);
                                        assert(segs.skip(i)[t] == segs.skip(i).skip(1)[t - 1]);
                                    }
                                }
                                assert(p =~= segs.skip(i));
                            }
                        }
                        assert(file_at(child_b, p.skip(1), n) == file_at(child_a, p.skip(1), n));
                        assert(file_at(b, p, n) == file_at(child_b, p.skip(1), n));
                        assert(file_at(a, p, n) == file_at(child_a, p.skip(1), n));
                    } else {
                        assert(b.subdirectories@[j] == a.subdirectories@[j]);
                        assert(b.subdir(h) == a.subdir(h));
                    }
                } else {
                    assert(!b.has_subdir(h)) by {
                        if b.has_subdir(h) {
                            let j = b.subdir_index(h);
                            assert(a.subdirectories@[j].name@ == h);
                        }
                    }
                }
            }
        }
    }
}

/// Append a file to the directory at the end of the path.
fn put_file_at(dir: &mut Directory, segs: &Vec<String>, i: usize, f: File)
    requires
        old(dir).wf(),
        i <= segs@.len(),
        old(dir).lookup(seg_views(segs@).skip(i as int)) is Some,
        !old(dir).lookup(seg_views(segs@).skip(i as int))->Some_0.has_file(f.name@),
    ensures
        final(dir).wf(),
        tree_update_files(*old(dir), *final(dir), seg_views(segs@), i as int),
        final(dir).lookup(seg_views(segs@).skip(i as int)) is Some,
        final(dir).lookup(seg_views(segs@).skip(i as int))->Some_0.files@ == old(dir).lookup(
            seg_views(segs@).skip(i as int),
        )->Some_0.files@.push(f),
        forall|p: Seq<Seq<char>>, n: Seq<char>|
            p != seg_views(segs@).skip(i as int) ==> file_at(*final(dir), p, n) == file_at(
                *old(dir),
                p,
                n,
            ),
    decreases segs@.len() - i,
{
    let ghost vs = seg_views(segs@);
    let ghost fname = f.name@;
    if i == segs.len() {
        proof {
            assert(vs.skip(i as int) =~= Seq::<Seq<char>>::empty());
        }
        let ghost a = *dir;
        dir.files.push(f);
        proof {
            assert(dir.files@ =~= a.files@.push(f));
            assert(tree_update_files(a, *dir, vs, i as int));
            lemma_tree_update_files(a, *dir, vs, i as int);
            assert forall|j: int, k: int|
                0 <= j < k < dir.files@.len() implies (#[trigger] dir.files@[j]).name@ != (
            #[trigger] dir.files@[k]).name@ by {
                if k == dir.files@.len() - 1 {
                    assert(dir.files@[j] == a.files@[j]);
                    if a.files@[j].name@ == fname {
                        assert(a.has_file(fname));
                    }
                } else {
                    assert(dir.files@[j] == a.files@[j]);
                    assert(dir.files@[k] == a.files@[k]);
                }
            }
        }
        return ;
    }
    proof {
        assert(vs.skip(i as int)[0] == segs@[i as int]@);
        assert(vs.skip(i as int).skip(1) =~= vs.skip(i as int + 1));
    }
    match find_subdir_index(dir, segs[i].as_str()) {
        Some(j) => {
            proof {
                dir.lemma_subdir_at(vs[i as int], j as int);
                assert(dir.subdir(vs[i as int]) == dir.subdirectories@[j as int]);
            }
            let ghost a = *dir;
            let mut child = dir.subdirectories.remove(j);
            put_file_at(&mut child, segs, i + 1, f);
            let ghost c2 = child;
            dir.subdirectories.insert(j, child);
            proof {
                assert(dir.subdirectories@ =~= a.subdirectories@.update(j as int, c2));
                assert(c2.name@ == a.subdirectories@[j as int].name@);
                assert(tree_update_files(a, *dir, vs, i as int));
                lemma_tree_update_files(a, *dir, vs, i as int);
            }
        },
        None => {
            proof {
                assert(false);
            }
        },
    }
}

/// Replace the named file's pages, size and (optionally) path in the
/// directory at the end of the path.
fn set_file_at(
    dir: &mut Directory,
    segs: &Vec<String>,
    i: usize,
    name: &str,
    addrs: Vec<u64>,
    size: u64,
    label: Option<String>,
)
    requires
        old(dir).wf(),
        i <= segs@.len(),
        old(dir).lookup(seg_views(segs@).skip(i as int)) is Some,
        old(dir).lookup(seg_views(segs@).skip(i as int))->Some_0.has_file(name@),
    ensures
        final(dir).wf(),
        tree_update_files(*old(dir), *final(dir), seg_views(segs@), i as int),
        final(dir).lookup(seg_views(segs@).skip(i as int)) is Some,
        ({
            let la = old(dir).lookup(seg_views(segs@).skip(i as int))->Some_0;
            let lb = final(dir).lookup(seg_views(segs@).skip(i as int))->Some_0;
            let fi = la.file_index(name@);
            &&& lb.files@.len() == la.files@.len()
            &&& forall|j: int| 0 <= j < la.files@.len() && j != fi ==> lb.files@[j] == la.files@[j]
            &&& lb.files@[fi].name@ == name@
            &&& lb.files@[fi].vmm_address@ == addrs@
            &&& lb.files@[fi].size == size
            &&& lb.files@[fi].path@ == (match label {
                Some(l) => l@,
                None => la.files@[fi].path@,
            })
        }),
        forall|p: Seq<Seq<char>>, n: Seq<char>|
            p != seg_views(segs@).skip(i as int) ==> file_at(*final(dir), p, n) == file_at(
                *old(dir),
                p,
                n,
            ),
    decreases segs@.len() - i,
{
    let ghost vs = seg_views(segs@);
    if i == segs.len() {
        proof {
            assert(vs.skip(i as int) =~= Seq::<Seq<char>>::empty());
        }
        let fi = match find_file_index(dir, name) {
            Some(fi) => fi,
            None => {
                proof {
                    assert(false);
                }
                return ;
            },
        };
        proof {
            dir.lemma_file_at(name@, fi as int);
        }
        let ghost a = *dir;
        let mut f = dir.files.remove(fi);
        f.vmm_address = addrs;
        f.size = size;
        match label {
            Some(l) => {
                f.path = l;
            },
            None => {},
        }
        let ghost f2 = f;
        dir.files.insert(fi, f);
        proof {
            assert(dir.files@ =~= a.files@.update(fi as int, f2));
            assert(f2.name@ == a.files@[fi as int].name@);
            assert(tree_update_files(a, *dir, vs, i as int));
            lemma_tree_update_files(a, *dir, vs, i as int);
            assert forall|j: int, k: int|
                0 <= j < k < dir.files@.len() implies (#[trigger] dir.files@[j]).name@ != (
            #[trigger] dir.files@[k]).name@ by {
                assert(dir.files@[j].name@ == a.files@[j].name@);
                assert(dir.files@[k].name@ == a.files@[k].name@);
            }
        }
        return ;
    }
    proof {
        assert(vs.skip(i as int)[0] == segs@[i as int]@);
        assert(vs.skip(i as int).skip(1) =~= vs.skip(i as int + 1));
    }
    match find_subdir_index(dir, segs[i].as_str()) {
        Some(j) => {
            proof {
                dir.lemma_subdir_at(vs[i as int], j as int);
                assert(dir.subdir(vs[i as int]) == dir.subdirectories@[j as int]);
            }
            let ghost a = *dir;
            let mut child = dir.subdirectories.remove(j);
            set_file_at(&mut child, segs, i + 1, name, addrs, size, label);
            let ghost c2 = child;
            dir.subdirectories.insert(j, child);
            proof {
                assert(dir.subdirectories@ =~= a.subdirectories@.update(j as int, c2));
                assert(c2.name@ == a.subdirectories@[j as int].name@);
                assert(tree_update_files(a, *dir, vs, i as int));
                lemma_tree_update_files(a, *dir, vs, i as int);
            }
        },
        None => {
            proof {
                assert(false);
            }
        },
    }
}

/// Take the named file out of the directory at the end of the path.
fn remove_file_at(dir: &mut Directory, segs: &Vec<String>, i: usize, name: &str)
    requires
        old(dir).wf(),
        i <= segs@.len(),
        old(dir).lookup(seg_views(segs@).skip(i as int)) is Some,
        old(dir).lookup(seg_views(segs@).skip(i as int))->Some_0.has_file(name@),
    ensures
        final(dir).wf(),
        tree_update_files(*old(dir), *final(dir), seg_views(segs@), i as int),
        final(dir).lookup(seg_views(segs@).skip(i as int)) is Some,
        ({
            let la = old(dir).lookup(seg_views(segs@).skip(i as int))->Some_0;
            let lb = final(dir).lookup(seg_views(segs@).skip(i as int))->Some_0;
            lb.files@ == la.files@.remove(la.file_index(name@))
        }),
        !final(dir).lookup(seg_views(segs@).skip(i as int))->Some_0.has_file(name@),
        forall|p: Seq<Seq<char>>, n: Seq<char>|
            p != seg_views(segs@).skip(i as int) ==> file_at(*final(dir), p, n) == file_at(
                *old(dir),
                p,
                n,
            ),
    decreases segs@.len() - i,
{
    let ghost vs = seg_views(segs@);
    if i == segs.len() {
        proof {
            assert(vs.skip(i as int) =~= Seq::<Seq<char>>::empty());
        }
        let fi = match find_file_index(dir, name) {
            Some(fi) => fi,
            None => {
                proof {
                    assert(false);
                }
                return ;
            },
        };
        proof {
            dir.lemma_file_at(name@, fi as int);
        }
        let ghost a = *dir;
        dir.files.remove(fi);
        proof {
            assert(tree_update_files(a, *dir, vs, i as int));
            lemma_tree_update_files(a, *dir, vs, i as int);
            assert(forall|t: int| 0 <= t < fi ==> dir.files@[t] == a.files@[t]);
            assert(forall|t: int|
                fi <= t < dir.files@.len() ==> dir.files@[t] == a.files@[t + 1]);
            assert forall|j: int, k: int|
                0 <= j < k < dir.files@.len() implies (#[trigger] dir.files@[j]).name@ != (
            #[trigger] dir.files@[k]).name@ by {
                let j0: int = if j < fi {
                    j
                } else {
                    j + 1
                };
                let k0: int = if k < fi {
                    k
                } else {
                    k + 1
                };
                assert(dir.files@[j] == a.files@[j0]);
                assert(dir.files@[k] == a.files@[k0]);
            }
            assert(!dir.has_file(name@)) by {
                if dir.has_file(name@) {
                    let t = choose|t: int|
                        0 <= t < dir.files@.len() && (#[trigger] dir.files@[t]).name@ == name@;
                    let t0: int = if t < fi {
                        t
                    } else {
                        t + 1
                    };
                    assert(a.files@[t0].name@ == name@);
                    a.lemma_file_at(name@, t0);
                    assert(t0 == fi);
                    assert(false);
                }
            }
        }
        return ;
    }
    proof {
        assert(vs.skip(i as int)[0] == segs@[i as int]@);
        assert(vs.skip(i as int).skip(1) =~= vs.skip(i as int + 1));
    }
    match find_subdir_index(dir, segs[i].as_str()) {
        Some(j) => {
            proof {
                dir.lemma_subdir_at(vs[i as int], j as int);
                assert(dir.subdir(vs[i as int]) == dir.subdirectories@[j as int]);
            }
            let ghost a = *dir;
            let mut child = dir.subdirectories.remove(j);
            remove_file_at(&mut child, segs, i + 1, name);
            let ghost c2 = child;
            dir.subdirectories.insert(j, child);
            proof {
                assert(dir.subdirectories@ =~= a.subdirectories@.update(j as int, c2));
                assert(c2.name@ == a.subdirectories@[j as int].name@);
                assert(tree_update_files(a, *dir, vs, i as int));
                lemma_tree_update_files(a, *dir, vs, i as int);
            }
        },
        None => {
            proof {
                assert(false);
            }
        },
    }
}

/// What a successful `touch(name)` guarantees: one fresh file of size
/// zero in the working directory, backed by one newly allocated page,
/// with every other file and every stored byte untouched.
pub open spec fn touch_ok_post(pre: Vfs, post: Vfs, name: Seq<char>) -> bool {
    &&& post.cwd == pre.cwd
    &&& post.vpm == pre.vpm
    &&& pre.cwd_dir() is Some
    &&& post.cwd_dir() is Some
    &&& !pre.cwd_dir()->Some_0.has_file(name)
    &&& ({
        let la = pre.cwd_dir()->Some_0;
        let lb = post.cwd_dir()->Some_0;
        &&& lb.files@.len() == la.files@.len() + 1
        &&& forall|j: int| 0 <= j < la.files@.len() ==> lb.files@[j] == la.files@[j]
        &&& lb.files@.last().name@ == name
        &&& lb.files@.last().size == 0
        &&& lb.files@.last().vmm_address@.len() == 1
        &&& lb.files@.last().vmm_address@[0] == pre.vmm.next_virtual_address
        &&& lb.files@.last().path@ == join_path(seg_views(pre.cwd@).push(name))
        &&& lb.subdirectories@ == la.subdirectories@
    })
    &&& file_at(post.root, seg_views(pre.cwd@), name) is Some
    &&& post.vmm.total_memory == pre.vmm.total_memory
    &&& post.vmm.free_memory == pre.vmm.free_memory - 4096
    &&& in_use_frames(post.vmm.frames@) == in_use_frames(pre.vmm.frames@) + 1
    &&& post.vmm.next_virtual_address == pre.vmm.next_virtual_address + 1
    &&& forall|p: Seq<Seq<char>>, n2: Seq<char>|
        (p != seg_views(pre.cwd@) || n2 != name) ==> file_at(post.root, p, n2) == file_at(
            pre.root,
            p,
            n2,
        )
    &&& forall|w: u64|
        pre.vmm.has_va(w) ==> post.vmm.has_va(w) && post.vmm.content_of(w)
            == pre.vmm.content_of(w)
}

/// Boundary: after a successful touch the name is taken, so the same
/// touch again is refused as a conflict and leaves the system — frames
/// included — unchanged.
pub proof fn lemma_touch_boundary(pre: Vfs, post: Vfs, name: Seq<char>)
    requires
        touch_ok_post(pre, post, name),
    ensures
        post.cwd_dir()->Some_0.has_file(name),
        !post.can_touch(name),
{
    let lb = post.cwd_dir()->Some_0;
    assert(lb.files@[lb.files@.len() - 1].name@ == name);
    assert(lb.has_file(name));
}

impl Vfs {
    /// The working directory exists, holds no file of that name, and a
    /// page can be allocated for it.
    pub open spec fn can_touch(self, name: Seq<char>) -> bool {
        &&& self.cwd_dir() is Some
        &&& !self.cwd_dir()->Some_0.has_file(name)
        &&& self.vmm.can_allocate()
    }

    /// Create an empty file in the working directory, eagerly allocating
    /// one page for it.  A name with a separator is refused outright; a
    /// name collision is refused before anything is allocated.
    #[verifier::rlimit(50)]
    pub fn touch(&mut self, filename: &str) -> (r: Result<(), KernelError>)
        requires
            old(self).inv(),
        ensures
            final(self).inv(),
            final(self).cwd == old(self).cwd,
            final(self).vpm == old(self).vpm,
            filename@.contains('/') ==> r == Err::<(), KernelError>(KernelError::Unsupported)
                && *final(self) == *old(self),
            !filename@.contains('/') ==> {
                &&& (old(self).cwd_dir() is None ==> r == Err::<(), KernelError>(
                    KernelError::NotFound,
                ) && *final(self) == *old(self))
                &&& (old(self).cwd_dir() is Some && old(self).cwd_dir()->Some_0.has_file(
                    filename@,
                ) ==> r == Err::<(), KernelError>(KernelError::Conflict) && *final(self) == *old(
                    self,
                ))
                &&& (old(self).cwd_dir() is Some && !old(self).cwd_dir()->Some_0.has_file(
                    filename@,
                ) && !old(self).vmm.can_allocate() ==> r == Err::<(), KernelError>(
                    KernelError::ResourceExhausted,
                ) && *final(self) == *old(self))
                &&& (old(self).can_touch(filename@) ==> r is Ok && touch_ok_post(
                    *old(self),
                    *final(self),
                    filename@,
                ))
            },
    {
        if contains_char(filename, '/') {
            return Err(KernelError::Unsupported);
        }
        proof {
            assert(seg_views(self.cwd@).skip(0) =~= seg_views(self.cwd@));
        }
        let conflict = match lookup_dir(&self.root, &self.cwd, 0) {
            Some(d) => find_file_index(d, filename).is_some(),
            None => {
                return Err(KernelError::NotFound);
            },
        };
        if conflict {
            return Err(KernelError::Conflict);
        }
        let page = match self.vmm.allocate_page() {
            Ok(p) => p,
            Err(e) => {
                return Err(e);
            },
        };
        let va = page.0;
        let mut path_segs = copy_segs(&self.cwd);
        path_segs.push(filename.to_owned());
        let path = render_path(&path_segs);
        proof {
            assert(seg_views(path_segs@) =~= seg_views(old(self).cwd@).push(filename@));
        }
        let mut addr_list: Vec<u64> = Vec::new();
        addr_list.push(va);
        let f = File { name: filename.to_owned(), path, vmm_address: addr_list, size: 0 };
        let ghost fg = f;
        proof {
            assert(fg.vmm_address@ =~= seq![va]);
        }
        put_file_at(&mut self.root, &self.cwd, 0, f);
        proof {
            let pre = *old(self);
            let cwdv = seg_views(pre.cwd@);
            assert(cwdv.skip(0) =~= cwdv);
            lemma_tree_update_files(pre.root, self.root, cwdv, 0);
            assert forall|w: u64| pre.vmm.has_va(w) implies self.vmm.has_va(w)
                && self.vmm.content_of(w) == pre.vmm.content_of(w) by {
                assert(pre.vmm.has_va(w) ==> self.vmm.has_va(w) && self.vmm.content_of(w)
                    == pre.vmm.content_of(w));
            }
            let la = pre.cwd_dir()->Some_0;
            let lb = self.root.lookup(cwdv)->Some_0;
            assert(lb.files@ == la.files@.push(fg));
            assert(lb.files@.last() == fg);
            // the new file is found under its name
            self.root.lemma_lookup_wf(cwdv);
            lb.lemma_file_at(filename@, lb.files@.len() - 1);
            assert(file_at(self.root, cwdv, filename@) == Some(fg));
            // the invariant clauses
            assert forall|p: Seq<Seq<char>>, n: Seq<char>|
                (#[trigger] file_at(self.root, p, n)) is Some implies file_ok(
                file_at(self.root, p, n)->Some_0,
                self.vmm,
            ) by {
                if p == cwdv && n == filename@ {
                    assert(file_at(self.root, p, n)->Some_0 == fg);
                } else {
                    assert(file_at(self.root, p, n) == file_at(pre.root, p, n));
                    let f0 = file_at(pre.root, p, n)->Some_0;
                    assert(file_ok(f0, pre.vmm));
                }
            }
            assert forall|p1: Seq<Seq<char>>, n1: Seq<char>, p2: Seq<Seq<char>>, n2: Seq<char>|
                #![trigger file_at(self.root, p1, n1), file_at(self.root, p2, n2)]
                ((p1 != p2 || n1 != n2) && file_at(self.root, p1, n1) is Some && file_at(
                    self.root,
                    p2,
                    n2,
                ) is Some) implies addrs_disjoint(
                file_at(self.root, p1, n1)->Some_0.vmm_address@,
                file_at(self.root, p2, n2)->Some_0.vmm_address@,
            ) by {
                let f1 = file_at(self.root, p1, n1)->Some_0;
                let f2 = file_at(self.root, p2, n2)->Some_0;
                if p1 == cwdv && n1 == filename@ {
                    assert(f1 == fg);
                    assert(file_at(self.root, p2, n2) == file_at(pre.root, p2, n2));
                    let g = file_at(pre.root, p2, n2)->Some_0;
                    assert(file_ok(g, pre.vmm));
                    assert forall|x: int, y: int|
                        0 <= x < f1.vmm_address@.len() && 0 <= y < f2.vmm_address@.len()
                            implies f1.vmm_address@[x] != f2.vmm_address@[y] by {
                        assert(pre.vmm.has_va(f2.vmm_address@[y]));
                        assert(!pre.vmm.has_va(va));
                    }
                } else if p2 == cwdv && n2 == filename@ {
                    assert(f2 == fg);
                    assert(file_at(self.root, p1, n1) == file_at(pre.root, p1, n1));
                    let g = file_at(pre.root, p1, n1)->Some_0;
                    assert(file_ok(g, pre.vmm));
                    assert forall|x: int, y: int|
                        0 <= x < f1.vmm_address@.len() && 0 <= y < f2.vmm_address@.len()
                            implies f1.vmm_address@[x] != f2.vmm_address@[y] by {
                        assert(pre.vmm.has_va(f1.vmm_address@[x]));
                        assert(!pre.vmm.has_va(va));
                    }
                } else {
                    assert(file_at(self.root, p1, n1) == file_at(pre.root, p1, n1));
                    assert(file_at(self.root, p2, n2) == file_at(pre.root, p2, n2));
                }
            }
            assert(self.cwd == pre.cwd);
            assert(self.vpm == pre.vpm);
            assert(seg_views(self.cwd@) == cwdv);
            assert(self.cwd_dir() == self.root.lookup(cwdv));
            assert(pre.cwd_dir() is Some && self.cwd_dir() is Some);
            assert(!pre.cwd_dir()->Some_0.has_file(filename@));
            assert(self.cwd_dir()->Some_0 == lb);
            assert(pre.cwd_dir()->Some_0 == la);
            assert(lb.files@.len() == la.files@.len() + 1);
            assert(forall|j: int| 0 <= j < la.files@.len() ==> lb.files@[j] == la.files@[j]);
            assert(lb.files@.last() == fg);
            assert(fg.name@ == filename@ && fg.size == 0);
            assert(fg.vmm_address@.len() == 1 && fg.vmm_address@[0]
                == pre.vmm.next_virtual_address);
            assert(fg.path@ == join_path(seg_views(pre.cwd@).push(filename@)));
            assert(lb.subdirectories@ == la.subdirectories@);
            assert(file_at(self.root, cwdv, filename@) is Some);
            assert(self.vmm.total_memory == pre.vmm.total_memory);
            assert(self.vmm.free_memory == pre.vmm.free_memory - 4096);
            assert(in_use_frames(self.vmm.frames@) == in_use_frames(pre.vmm.frames@) + 1);
            assert(self.vmm.next_virtual_address == pre.vmm.next_virtual_address + 1);
            assert(forall|p: Seq<Seq<char>>, n2: Seq<char>|
                (p != cwdv || n2 != filename@) ==> file_at(self.root, p, n2) == file_at(
                    pre.root,
                    p,
                    n2,
                ));
            assert(touch_ok_post(pre, *self, filename@));
        }
        Ok(())
    }
}

/// What a successful `write_file(name, bytes, label)` guarantees: the
/// named file in the working directory holds exactly `bytes` on freshly
/// allocated pages, its old pages are freed, and every other file keeps
/// both its record and its stored bytes.
pub open spec fn write_file_ok_post(
    pre: Vfs,
    post: Vfs,
    name: Seq<char>,
    bytes: Seq<u8>,
    label: Option<Seq<char>>,
) -> bool {
    &&& post.cwd == pre.cwd
    &&& post.vpm == pre.vpm
    &&& pre.cwd_dir() is Some
    &&& post.cwd_dir() is Some
    &&& pre.cwd_dir()->Some_0.has_file(name)
    &&& ({
        let la = pre.cwd_dir()->Some_0;
        let lb = post.cwd_dir()->Some_0;
        let fi = la.file_index(name);
        &&& lb.files@.len() == la.files@.len()
        &&& forall|j: int| 0 <= j < la.files@.len() && j != fi ==> lb.files@[j] == la.files@[j]
        &&& lb.files@[fi].name@ == name
        &&& lb.files@[fi].size == bytes.len()
        &&& lb.files@[fi].path@ == (match label {
            Some(l) => l,
            None => la.files@[fi].path@,
        })
        &&& lb.subdirectories@ == la.subdirectories@
        &&& post.vmm.readable(lb.files@[fi].vmm_address@)
        &&& post.vmm.bytes_at(lb.files@[fi].vmm_address@) == bytes
    })
    &&& file_at(post.root, seg_views(pre.cwd@), name) is Some
    &&& post.vmm.readable(file_at(post.root, seg_views(pre.cwd@), name)->Some_0.vmm_address@)
    &&& post.vmm.bytes_at(file_at(post.root, seg_views(pre.cwd@), name)->Some_0.vmm_address@)
        == bytes
    &&& forall|p: Seq<Seq<char>>, n2: Seq<char>|
        (p != seg_views(pre.cwd@) || n2 != name) ==> file_at(post.root, p, n2) == file_at(
            pre.root,
            p,
            n2,
        )
    &&& forall|p: Seq<Seq<char>>, n2: Seq<char>|
        #![trigger file_at(pre.root, p, n2)]
        ((p != seg_views(pre.cwd@) || n2 != name) && file_at(pre.root, p, n2) is Some) ==> ({
            let g = file_at(pre.root, p, n2)->Some_0;
            &&& post.vmm.bytes_at(g.vmm_address@) == pre.vmm.bytes_at(g.vmm_address@)
            &&& (pre.vmm.readable(g.vmm_address@) ==> post.vmm.readable(g.vmm_address@))
        })
}

/// Isolation: writing two different files in turn leaves each holding
/// exactly its own buffer; neither write disturbs the other's bytes.
pub proof fn lemma_write_isolation(
    s0: Vfs,
    s1: Vfs,
    s2: Vfs,
    n1: Seq<char>,
    b1: Seq<u8>,
    l1: Option<Seq<char>>,
    n2: Seq<char>,
    b2: Seq<u8>,
    l2: Option<Seq<char>>,
)
    requires
        write_file_ok_post(s0, s1, n1, b1, l1),
        write_file_ok_post(s1, s2, n2, b2, l2),
        n1 != n2,
    ensures
        ({
            let p = seg_views(s0.cwd@);
            &&& file_at(s2.root, p, n1) is Some
            &&& s2.vmm.bytes_at(file_at(s2.root, p, n1)->Some_0.vmm_address@) == b1
            &&& s2.vmm.readable(file_at(s2.root, p, n1)->Some_0.vmm_address@)
            &&& file_at(s2.root, p, n2) is Some
            &&& s2.vmm.bytes_at(file_at(s2.root, p, n2)->Some_0.vmm_address@) == b2
        }),
{
    let p = seg_views(s0.cwd@);
    assert(s1.cwd == s0.cwd);
    assert(seg_views(s1.cwd@) == p);
    assert(file_at(s1.root, p, n1) is Some);
    assert(file_at(s2.root, p, n1) == file_at(s1.root, p, n1));
    let g = file_at(s1.root, p, n1)->Some_0;
    assert(s2.vmm.bytes_at(g.vmm_address@) == s1.vmm.bytes_at(g.vmm_address@));
}

impl Vfs {
    /// The named file exists in the working directory and enough frames
    /// and fresh addresses remain to hold `len` bytes once its old pages
    /// are freed.
    pub open spec fn can_write(self, name: Seq<char>, len: int) -> bool {
        &&& self.cwd_dir() is Some
        &&& self.cwd_dir()->Some_0.has_file(name)
        &&& in_use_frames(self.vmm.frames@) - self.cwd_dir()->Some_0.file(
            name,
        ).vmm_address@.len() + pages_needed(len) <= self.vmm.frames@.len()
        &&& self.vmm.next_virtual_address + pages_needed(len) <= u64::MAX
    }

    /// Look the named file up in the working directory and hand back a
    /// copy of its record.
    pub fn get_file_in_cwd(&self, filename: &str) -> (r: Option<File>)
        requires
            self.inv(),
        ensures
            r is Some <==> (self.cwd_dir() is Some && self.cwd_dir()->Some_0.has_file(filename@)),
            r matches Some(f) ==> ({
                let g = self.cwd_dir()->Some_0.file(filename@);
                &&& f.name@ == g.name@
                &&& f.path@ == g.path@
                &&& f.vmm_address@ == g.vmm_address@
                &&& f.size == g.size
            }),
    {
        proof {
            assert(seg_views(self.cwd@).skip(0) =~= seg_views(self.cwd@));
        }
        match lookup_dir(&self.root, &self.cwd, 0) {
            Some(d) => match find_file_index(d, filename) {
                Some(fi) => {
                    proof {
                        d.lemma_file_at(filename@, fi as int);
                    }
                    Some(
                        File {
                            name: d.files[fi].name.clone(),
                            path: d.files[fi].path.clone(),
                            vmm_address: copy_addrs(&d.files[fi].vmm_address),
                            size: d.files[fi].size,
                        },
                    )
                },
                None => None,
            },
            None => None,
        }
    }

    /// Replace the named file's content with the given buffer: its old
    /// pages are freed first, fresh pages are allocated for the buffer,
    /// and the record's size — and, when a destination label is given,
    /// its path — are updated.  Capacity is checked before anything
    /// changes, so a refused write leaves the system untouched.
    #[verifier::rlimit(100)]
    pub fn write_file(
        &mut self,
        filename: &str,
        bytes_to_write: Vec<u8>,
        filepath: Option<&str>,
    ) -> (r: Result<(), KernelError>)
        requires
            old(self).inv(),
        ensures
            final(self).inv(),
            final(self).cwd == old(self).cwd,
            final(self).vpm == old(self).vpm,
            final(self).vmm.total_memory == old(self).vmm.total_memory,
            r is Ok <==> old(self).can_write(filename@, bytes_to_write@.len() as int),
            r is Err ==> *final(self) == *old(self),
            !(old(self).cwd_dir() is Some && old(self).cwd_dir()->Some_0.has_file(filename@))
                ==> r == Err::<(), KernelError>(KernelError::NotFound),
            (old(self).cwd_dir() is Some && old(self).cwd_dir()->Some_0.has_file(filename@)
                && !old(self).can_write(filename@, bytes_to_write@.len() as int)) ==> r == Err::<
                (),
                KernelError,
            >(KernelError::ResourceExhausted),
            r is Ok ==> write_file_ok_post(
                *old(self),
                *final(self),
                filename@,
                bytes_to_write@,
                match filepath {
                    Some(p) => Some(p@),
                    None => None,
                },
            ),
    {
        let size = bytes_to_write.len() as u64;
        let lenu = size;
        let n = lenu / DEFAULT_PAGE_SIZE + if lenu % DEFAULT_PAGE_SIZE != 0 {
            1
        } else {
            0
        };
        proof {
            assert(n == pages_needed(bytes_to_write@.len() as int));
        }
        let f0 = match self.get_file_in_cwd(filename) {
            Some(f) => f,
            None => {
                return Err(KernelError::NotFound);
            },
        };
        let ghost pre = *old(self);
        let ghost cwdv = seg_views(pre.cwd@);
        let old_addrs = f0.vmm_address;
        let k = old_addrs.len();
        proof {
            assert(file_at(pre.root, cwdv, filename@) is Some);
            assert(file_at(pre.root, cwdv, filename@)->Some_0 == pre.cwd_dir()->Some_0.file(
                filename@,
            ));
            assert(old_addrs@ == pre.cwd_dir()->Some_0.file(filename@).vmm_address@);
        }
        let used = self.vmm.count_in_use();
        proof {
            lemma_in_use_bounds(self.vmm.frames@);
        }
        let nf = self.vmm.frames.len();
        let frames_ok = if k as u64 >= n {
            true
        } else {
            n - k as u64 <= nf as u64 - used
        };
        if !frames_ok {
            return Err(KernelError::ResourceExhausted);
        }
        if n > u64::MAX - self.vmm.next_virtual_address {
            return Err(KernelError::ResourceExhausted);
        }
        proof {
            let fspec = file_at(pre.root, cwdv, filename@)->Some_0;
            assert(file_ok(fspec, pre.vmm));
            assert(pre.vmm.can_deallocate(old_addrs@)) by {
                assert forall|x: int, y: int|
                    0 <= x < old_addrs@.len() && 0 <= y < old_addrs@.len() && x != y
                        implies old_addrs@[x] != old_addrs@[y] by {
                    if x < y {
                        assert(fspec.vmm_address@[x] != fspec.vmm_address@[y]);
                    } else {
                        assert(fspec.vmm_address@[y] != fspec.vmm_address@[x]);
                    }
                }
            }
        }
        let ghost oa = old_addrs@;
        match self.vmm.deallocate_page(old_addrs) {
            Ok(_) => {},
            Err(_) => {
                proof {
                    assert(false);
                }
                return Err(KernelError::InvariantViolation);
            },
        }
        let ghost vmid = self.vmm;
        proof {
            assert(self.vmm.can_allocate_bytes(bytes_to_write@.len() as int));
        }
        let new_addrs = match self.vmm.allocate_bytes(bytes_to_write) {
            Ok(v) => v,
            Err(_) => {
                proof {
                    assert(false);
                }
                return Err(KernelError::ResourceExhausted);
            },
        };
        let ghost na = new_addrs@;
        let ghost vpost = self.vmm;
        let label: Option<String> = match filepath {
            Some(p) => Some(p.to_owned()),
            None => None,
        };
        let ghost glabel = label;
        proof {
            assert(seg_views(self.cwd@).skip(0) =~= cwdv);
            assert(self.root == pre.root);
            assert(self.root.lookup(cwdv) is Some);
            assert(self.root.lookup(cwdv)->Some_0.has_file(filename@));
        }
        set_file_at(&mut self.root, &self.cwd, 0, filename, new_addrs, size, label);
        proof {
            assert(cwdv.skip(0) =~= cwdv);
            lemma_tree_update_files(pre.root, self.root, cwdv, 0);
            let la = pre.cwd_dir()->Some_0;
            let lb = self.root.lookup(cwdv)->Some_0;
            let fi = la.file_index(filename@);
            self.root.lemma_lookup_wf(cwdv);
            lb.lemma_file_at(filename@, fi);
            assert(seg_views(self.cwd@) == cwdv);
            assert(self.cwd_dir() == self.root.lookup(cwdv));
            let fnew = lb.files@[fi];
            assert(fnew.vmm_address@ == na);
            assert(file_at(self.root, cwdv, filename@) == Some(fnew));
            // other files keep their pages and bytes
            assert forall|p: Seq<Seq<char>>, n2: Seq<char>|
                #![trigger file_at(pre.root, p, n2)]
                ((p != cwdv || n2 != filename@) && file_at(pre.root, p, n2) is Some) implies ({
                let g = file_at(pre.root, p, n2)->Some_0;
                &&& self.vmm.bytes_at(g.vmm_address@) == pre.vmm.bytes_at(g.vmm_address@)
                &&& (pre.vmm.readable(g.vmm_address@) ==> self.vmm.readable(g.vmm_address@))
                &&& forall|x: int|
                    0 <= x < g.vmm_address@.len() ==> self.vmm.has_va(#[trigger] g.vmm_address@[x])
                        && self.vmm.content_of(g.vmm_address@[x]) == pre.vmm.content_of(
                        g.vmm_address@[x],
                    )
            }) by {
                let g = file_at(pre.root, p, n2)->Some_0;
                assert(file_ok(g, pre.vmm));
                assert(addrs_disjoint(
                    g.vmm_address@,
                    file_at(pre.root, cwdv, filename@)->Some_0.vmm_address@,
                ));
                assert forall|x: int|
                    0 <= x < g.vmm_address@.len() implies self.vmm.has_va(
                    #[trigger] g.vmm_address@[x],
                ) && self.vmm.content_of(g.vmm_address@[x]) == pre.vmm.content_of(
                    g.vmm_address@[x],
                ) by {
                    let w = g.vmm_address@[x];
                    assert(pre.vmm.has_va(w));
                    assert(!oa.contains(w)) by {
                        if oa.contains(w) {
                            let y = choose|y: int| 0 <= y < oa.len() && oa[y] == w;
                            assert(g.vmm_address@[x] == file_at(
                                pre.root,
                                cwdv,
                                filename@,
                            )->Some_0.vmm_address@[y]);
                        }
                    }
                    assert(vmid.has_va(w) && vmid.content_of(w) == pre.vmm.content_of(w));
                    assert(self.vmm.has_va(w) && self.vmm.content_of(w) == vmid.content_of(w));
                }
                lemma_bytes_at_preserved(pre.vmm, self.vmm, g.vmm_address@);
                if pre.vmm.readable(g.vmm_address@) {
                    assert forall|x: int|
                        0 <= x < g.vmm_address@.len() implies self.vmm.has_va(
                        #[trigger] g.vmm_address@[x],
                    ) && self.vmm.content_of(g.vmm_address@[x]) is Some by {
                        assert(pre.vmm.content_of(g.vmm_address@[x]) is Some);
                    }
                }
            }
            // the invariant
            assert forall|p: Seq<Seq<char>>, n2: Seq<char>|
                (#[trigger] file_at(self.root, p, n2)) is Some implies file_ok(
                file_at(self.root, p, n2)->Some_0,
                self.vmm,
            ) by {
                if p == cwdv && n2 == filename@ {
                    assert(file_at(self.root, p, n2)->Some_0 == fnew);
                    assert forall|x: int, y: int|
                        0 <= x < y < na.len() implies na[x] != na[y] by {
                        assert(na[x] == vmid.next_virtual_address + x);
                        assert(na[y] == vmid.next_virtual_address + y);
                    }
                } else {
                    assert(file_at(self.root, p, n2) == file_at(pre.root, p, n2));
                    let g = file_at(pre.root, p, n2)->Some_0;
                    assert(file_ok(g, pre.vmm));
                }
            }
            assert forall|p1: Seq<Seq<char>>, n1: Seq<char>, p2: Seq<Seq<char>>, n2: Seq<char>|
                #![trigger file_at(self.root, p1, n1), file_at(self.root, p2, n2)]
                ((p1 != p2 || n1 != n2) && file_at(self.root, p1, n1) is Some && file_at(
                    self.root,
                    p2,
                    n2,
                ) is Some) implies addrs_disjoint(
                file_at(self.root, p1, n1)->Some_0.vmm_address@,
                file_at(self.root, p2, n2)->Some_0.vmm_address@,
            ) by {
                let f1 = file_at(self.root, p1, n1)->Some_0;
                let f2 = file_at(self.root, p2, n2)->Some_0;
                if p1 == cwdv && n1 == filename@ {
                    assert(f1 == fnew);
                    assert(file_at(self.root, p2, n2) == file_at(pre.root, p2, n2));
                    let g = file_at(pre.root, p2, n2)->Some_0;
                    assert forall|x: int, y: int|
                        0 <= x < f1.vmm_address@.len() && 0 <= y < f2.vmm_address@.len()
                            implies f1.vmm_address@[x] != f2.vmm_address@[y] by {
                        assert(vmid.has_va(g.vmm_address@[y]));
                        assert(!vmid.has_va(na[x]));
                    }
                } else if p2 == cwdv && n2 == filename@ {
                    assert(f2 == fnew);
                    assert(file_at(self.root, p1, n1) == file_at(pre.root, p1, n1));
                    let g = file_at(pre.root, p1, n1)->Some_0;
                    assert forall|x: int, y: int|
                        0 <= x < f1.vmm_address@.len() && 0 <= y < f2.vmm_address@.len()
                            implies f1.vmm_address@[x] != f2.vmm_address@[y] by {
                        assert(vmid.has_va(g.vmm_address@[x]));
                        assert(!vmid.has_va(na[y]));
                    }
                } else {
                    assert(file_at(self.root, p1, n1) == file_at(pre.root, p1, n1));
                    assert(file_at(self.root, p2, n2) == file_at(pre.root, p2, n2));
                }
            }
            assert(write_file_ok_post(
                pre,
                *self,
                filename@,
                bytes_to_write@,
                match glabel {
                    Some(l) => Some(l@),
                    None => None,
                },
            ));
        }
        Ok(())
    }
}

/// How detaching one subdirectory rewrites the tree: descend along the
/// segments, then drop the named child from the directory at the end.
pub open spec fn tree_detach_dir(
    a: Directory,
    b: Directory,
    segs: Seq<Seq<char>>,
    i: int,
    name: Seq<char>,
) -> bool
    decreases segs.len() - i,
{
    if i >= segs.len() {
        &&& b.name@ == a.name@
        &&& b.files@ == a.files@
        &&& a.has_subdir(name)
        &&& b.subdirectories@ == a.subdirectories@.remove(a.subdir_index(name))
    } else {
        let idx = a.subdir_index(segs[i]);
        &&& a.has_subdir(segs[i])
        &&& b.name@ == a.name@
        &&& b.files@ == a.files@
        &&& b.subdirectories@.len() == a.subdirectories@.len()
        &&& forall|j: int|
            0 <= j < a.subdirectories@.len() && j != idx ==> b.subdirectories@[j]
                == a.subdirectories@[j]
        &&& b.subdirectories@[idx].name@ == segs[i]
        &&& tree_detach_dir(a.subdir(segs[i]), b.subdirectories@[idx], segs, i + 1, name)
    }
}

/// Detaching a subdirectory only makes files disappear: whatever is
/// still found afterwards was there before, unchanged.
pub proof fn lemma_tree_detach_dir(
    a: Directory,
    b: Directory,
    segs: Seq<Seq<char>>,
    i: int,
    name: Seq<char>,
)
    requires
        0 <= i <= segs.len(),
        a.wf(),
        tree_detach_dir(a, b, segs, i, name),
    ensures
        b.wf(),
        a.lookup(segs.skip(i)) is Some,
        b.lookup(segs.skip(i)) is Some,
        !b.lookup(segs.skip(i))->Some_0.has_subdir(name),
        b.lookup(segs.skip(i))->Some_0.files@ == a.lookup(segs.skip(i))->Some_0.files@,
        b.lookup(segs.skip(i))->Some_0.name@ == a.lookup(segs.skip(i))->Some_0.name@,
        forall|p: Seq<Seq<char>>, n: Seq<char>|
            file_at(b, p, n) is Some ==> file_at(a, p, n) == file_at(b, p, n),
    decreases segs.len() - i,
{
    if i >= segs.len() {
        assert(segs.skip(i) =~= Seq::<Seq<char>>::empty());
        let idx = a.subdir_index(name);
        a.lemma_subdir_at(name, idx);
        let sa = a.subdirectories@;
        let sb = b.subdirectories@;
        assert(forall|t: int| 0 <= t < idx ==> sb[t] == sa[t]);
        assert(forall|t: int| idx <= t < sb.len() ==> sb[t] == sa[t + 1]);
        // names stay unique and children well formed
        assert(b.wf()) by {
            assert forall|j: int, k: int|
                0 <= j < k < sb.len() implies (#[trigger] sb[j]).name@ != (
            #[trigger] sb[k]).name@ by {
                let j0: int = if j < idx {
                    j
                } else {
                    j + 1
                };
                let k0: int = if k < idx {
                    k
                } else {
                    k + 1
                };
                assert(sb[j] == sa[j0]);
                assert(sb[k] == sa[k0]);
            }
            assert forall|j: int| 0 <= j < sb.len() implies (#[trigger] sb[j]).wf() by {
                let j0: int = if j < idx {
                    j
                } else {
                    j + 1
                };
                assert(sb[j] == sa[j0]);
            }
        }
        assert(!b.has_subdir(name)) by {
            if b.has_subdir(name) {
                let t = choose|t: int| 0 <= t < sb.len() && (#[trigger] sb[t]).name@ == name;
                let t0: int = if t < idx {
                    t
                } else {
                    t + 1
                };
                assert(sb[t] == sa[t0]);
                a.lemma_subdir_at(name, t0);
                assert(t0 == idx);
                assert(false);
            }
        }
        assert forall|p: Seq<Seq<char>>, n: Seq<char>|
            file_at(b, p, n) is Some implies file_at(a, p, n) == file_at(b, p, n) by {
            if p.len() == 0 {
                lemma_file_congruence(a, b, n);
            } else {
                let h = p[0];
                if b.has_subdir(h) {
                    let t = b.subdir_index(h);
                    b.lemma_subdir_at(h, t);
                    let t0: int = if t < idx {
                        t
                    } else {
                        t + 1
                    };
                    assert(sb[t] == sa[t0]);
                    a.lemma_subdir_at(h, t0);
                    assert(b.subdir(h) == a.subdir(h));
                }
            }
        }
    } else {
        let x = segs[i];
        let idx = a.subdir_index(x);
        a.lemma_subdir_at(x, idx);
        let child_a = a.subdir(x);
        let child_b = b.subdirectories@[idx];
        assert(child_a.wf());
        lemma_tree_detach_dir(child_a, child_b, segs, i + 1, name);
        assert(segs.skip(i)[0] == x);
        assert(segs.skip(i).skip(1) =~= segs.skip(i + 1));
        assert forall|j: int|
            0 <= j < b.subdirectories@.len() implies (#[trigger] b.subdirectories@[j]).name@
            == a.subdirectories@[j].name@ by {
            if j != idx {
                assert(b.subdirectories@[j] == a.subdirectories@[j]);
            }
        }
        b.lemma_subdir_at(x, idx);
        assert(b.subdir(x) == child_b);
        assert(b.wf()) by {
            assert forall|j: int|
                0 <= j < b.subdirectories@.len() implies (#[trigger] b.subdirectories@[j]).wf() by {
                if j != idx {
                    assert(b.subdirectories@[j] == a.subdirectories@[j]);
                }
            }
        }
        assert(a.lookup(segs.skip(i)) == child_a.lookup(segs.skip(i + 1)));
        assert(b.lookup(segs.skip(i)) == child_b.lookup(segs.skip(i + 1)));
        assert forall|p: Seq<Seq<char>>, n: Seq<char>|
            file_at(b, p, n) is Some implies file_at(a, p, n) == file_at(b, p, n) by {
            if p.len() == 0 {
                lemma_file_congruence(a, b, n);
            } else {
                let h = p[0];
                if b.has_subdir(h) {
                    let j = b.subdir_index(h);
                    b.lemma_subdir_at(h, j);
                    assert(a.subdirectories@[j].name@ == h);
                    a.lemma_subdir_at(h, j);
                    if j == idx {
                        assert(file_at(b, p, n) == file_at(child_b, p.skip(1), n));
                        assert(file_at(a, p, n) == file_at(child_a, p.skip(1), n));
                    } else {
                        assert(b.subdirectories@[j] == a.subdirectories@[j]);
                        assert(b.subdir(h) == a.subdir(h));
                    }
                }
            }
        }
    }
}

/// Drop the named subdirectory from the directory at the end of the path.
fn remove_dir_at(dir: &mut Directory, segs: &Vec<String>, i: usize, name: &str)
    requires
        old(dir).wf(),
        i <= segs@.len(),
        old(dir).lookup(seg_views(segs@).skip(i as int)) is Some,
        old(dir).lookup(seg_views(segs@).skip(i as int))->Some_0.has_subdir(name@),
    ensures
        final(dir).wf(),
        tree_detach_dir(*old(dir), *final(dir), seg_views(segs@), i as int, name@),
    decreases segs@.len() - i,
{
    let ghost vs = seg_views(segs@);
    if i == segs.len() {
        proof {
            assert(vs.skip(i as int) =~= Seq::<Seq<char>>::empty());
        }
        let j = match find_subdir_index(dir, name) {
            Some(j) => j,
            None => {
                proof {
                    assert(false);
                }
                return ;
            },
        };
        proof {
            dir.lemma_subdir_at(name@, j as int);
        }
        let ghost a = *dir;
        dir.subdirectories.remove(j);
        proof {
            assert(tree_detach_dir(a, *dir, vs, i as int, name@));
            lemma_tree_detach_dir(a, *dir, vs, i as int, name@);
        }
        return ;
    }
    proof {
        assert(vs.skip(i as int)[0] == segs@[i as int]@);
        assert(vs.skip(i as int).skip(1) =~= vs.skip(i as int + 1));
    }
    match find_subdir_index(dir, segs[i].as_str()) {
        Some(j) => {
            proof {
                dir.lemma_subdir_at(vs[i as int], j as int);
                assert(dir.subdir(vs[i as int]) == dir.subdirectories@[j as int]);
            }
            let ghost a = *dir;
            let mut child = dir.subdirectories.remove(j);
            remove_dir_at(&mut child, segs, i + 1, name);
            let ghost c2 = child;
            dir.subdirectories.insert(j, child);
            proof {
                assert(dir.subdirectories@ =~= a.subdirectories@.update(j as int, c2));
                assert(c2.name@ == a.subdirectories@[j as int].name@);
                assert(tree_detach_dir(a, *dir, vs, i as int, name@));
                lemma_tree_detach_dir(a, *dir, vs, i as int, name@);
            }
        },
        None => {
            proof {
                assert(false);
            }
        },
    }
}

/// What a successful file removal guarantees: the record leaves its
/// directory and every one of its pages goes back to the pool; nothing
/// else — file or stored byte — changes.
pub open spec fn remove_file_ok_post(
    pre: Vfs,
    post: Vfs,
    parent: Seq<Seq<char>>,
    name: Seq<char>,
) -> bool {
    &&& post.cwd == pre.cwd
    &&& post.vpm == pre.vpm
    &&& file_at(pre.root, parent, name) is Some
    &&& file_at(post.root, parent, name) is None
    &&& post.root.lookup(parent) is Some
    &&& !post.root.lookup(parent)->Some_0.has_file(name)
    &&& post.root.lookup(parent)->Some_0.subdirectories@ == pre.root.lookup(
        parent,
    )->Some_0.subdirectories@
    &&& forall|p: Seq<Seq<char>>, n2: Seq<char>|
        (p != parent || n2 != name) ==> file_at(post.root, p, n2) == file_at(pre.root, p, n2)
    &&& ({
        let f = file_at(pre.root, parent, name)->Some_0;
        &&& post.vmm.free_memory == pre.vmm.free_memory + f.vmm_address@.len() * 4096
        &&& post.vmm.total_memory == pre.vmm.total_memory
        &&& in_use_frames(post.vmm.frames@) == in_use_frames(pre.vmm.frames@)
            - f.vmm_address@.len()
        &&& forall|w: u64|
            post.vmm.has_va(w) <==> (pre.vmm.has_va(w) && !f.vmm_address@.contains(w))
        &&& forall|w: u64|
            post.vmm.has_va(w) ==> post.vmm.content_of(w) == pre.vmm.content_of(w)
    })
}

/// Cleanup: removing a file frees exactly its pages and leaves its name
/// unknown to the directory, so a later lookup of that name misses.
pub proof fn lemma_remove_cleanup(pre: Vfs, post: Vfs, parent: Seq<Seq<char>>, name: Seq<char>)
    requires
        remove_file_ok_post(pre, post, parent, name),
    ensures
        file_at(post.root, parent, name) is None,
        !post.root.lookup(parent)->Some_0.has_file(name),
        post.vmm.free_memory == pre.vmm.free_memory + file_at(
            pre.root,
            parent,
            name,
        )->Some_0.vmm_address@.len() * 4096,
{
}

impl Vfs {
    /// Remove a path: a final segment with a dot names a file, which is
    /// taken out of its directory and its pages freed; any other final
    /// segment names a directory, which is only detached from its parent
    /// (its contents keep their pages).
    #[verifier::rlimit(100)]
    pub fn remove(&mut self, files_path: &str) -> (r: Result<(), KernelError>)
        requires
            old(self).inv(),
        ensures
            final(self).inv(),
            final(self).cwd == old(self).cwd,
            final(self).vpm == old(self).vpm,
            r is Err ==> *final(self) == *old(self),
            ({
                let target = resolve(seg_views(old(self).cwd@), files_path@);
                &&& (target.len() == 0 ==> r == Err::<(), KernelError>(KernelError::Unsupported))
                &&& (target.len() > 0 && target.last().contains('.') ==> {
                    let parent = target.drop_last();
                    let name = target.last();
                    &&& (r is Ok <==> file_at(old(self).root, parent, name) is Some)
                    &&& (r is Err ==> r == Err::<(), KernelError>(KernelError::NotFound))
                    &&& (r is Ok ==> remove_file_ok_post(*old(self), *final(self), parent, name))
                })
                &&& (target.len() > 0 && !target.last().contains('.') ==> {
                    let parent = target.drop_last();
                    let name = target.last();
                    &&& (r is Ok <==> (old(self).root.lookup(parent) is Some && old(
                        self,
                    ).root.lookup(parent)->Some_0.has_subdir(name)))
                    &&& (r is Err ==> r == Err::<(), KernelError>(KernelError::NotFound))
                    &&& (r is Ok ==> {
                        &&& final(self).vmm == old(self).vmm
                        &&& tree_detach_dir(old(self).root, final(self).root, parent, 0, name)
                        &&& final(self).root.lookup(parent) is Some
                        &&& !final(self).root.lookup(parent)->Some_0.has_subdir(name)
                        &&& forall|p: Seq<Seq<char>>, n2: Seq<char>|
                            file_at(final(self).root, p, n2) is Some ==> file_at(
                                old(self).root,
                                p,
                                n2,
                            ) == file_at(final(self).root, p, n2)
                    })
                })
            }),
    {
        let ghost pre = *old(self);
        let ghost target = resolve(seg_views(pre.cwd@), files_path@);
        let absolute = files_path.unicode_len() > 0 && files_path.get_char(0) == '/';
        let mut segs = split_path(files_path);
        let mut full: Vec<String> = if absolute {
            Vec::new()
        } else {
            copy_segs(&self.cwd)
        };
        let ghost base = full@;
        full.append(&mut segs);
        proof {
            assert(seg_views(full@) =~= target);
        }
        let name = match full.pop() {
            Some(n) => n,
            None => {
                return Err(KernelError::Unsupported);
            },
        };
        proof {
            assert(seg_views(full@) =~= target.drop_last());
            assert(name@ == target.last());
        }
        let ghost parent = target.drop_last();
        if contains_char(name.as_str(), '.') {
            // a file: detach the record, then free its pages
            let old_addrs = match lookup_dir(&self.root, &full, 0) {
                Some(d) => {
                    proof {
                        assert(seg_views(full@).skip(0) =~= seg_views(full@));
                    }
                    match find_file_index(d, name.as_str()) {
                        Some(fi) => {
                            proof {
                                d.lemma_file_at(name@, fi as int);
                            }
                            copy_addrs(&d.files[fi].vmm_address)
                        },
                        None => {
                            return Err(KernelError::NotFound);
                        },
                    }
                },
                None => {
                    proof {
                        assert(seg_views(full@).skip(0) =~= seg_views(full@));
                    }
                    return Err(KernelError::NotFound);
                },
            };
            let ghost oa = old_addrs@;
            proof {
                assert(file_at(pre.root, parent, name@) is Some);
                let fspec = file_at(pre.root, parent, name@)->Some_0;
                assert(fspec.vmm_address@ == oa);
                assert(file_ok(fspec, pre.vmm));
                assert(pre.vmm.can_deallocate(oa)) by {
                    assert forall|x: int, y: int|
                        0 <= x < oa.len() && 0 <= y < oa.len() && x != y implies oa[x] != oa[y] by {
                        if x < y {
                            assert(fspec.vmm_address@[x] != fspec.vmm_address@[y]);
                        } else {
                            assert(fspec.vmm_address@[y] != fspec.vmm_address@[x]);
                        }
                    }
                }
            }
            remove_file_at(&mut self.root, &full, 0, name.as_str());
            match self.vmm.deallocate_page(old_addrs) {
                Ok(_) => {},
                Err(_) => {
                    proof {
                        assert(false);
                    }
                    return Err(KernelError::InvariantViolation);
                },
            }
            proof {
                assert(seg_views(full@).skip(0) =~= parent);
                lemma_tree_update_files(pre.root, self.root, parent, 0);
                let fspec = file_at(pre.root, parent, name@)->Some_0;
                assert(file_at(self.root, parent, name@) is None);
                assert forall|p: Seq<Seq<char>>, n2: Seq<char>|
                    (#[trigger] file_at(self.root, p, n2)) is Some implies file_ok(
                    file_at(self.root, p, n2)->Some_0,
                    self.vmm,
                ) by {
                    assert(p != parent || n2 != name@);
                    assert(file_at(self.root, p, n2) == file_at(pre.root, p, n2));
                    let g = file_at(pre.root, p, n2)->Some_0;
                    assert(file_ok(g, pre.vmm));
                    assert(addrs_disjoint(g.vmm_address@, fspec.vmm_address@));
                    assert forall|x: int|
                        0 <= x < g.vmm_address@.len() implies self.vmm.has_va(
                        #[trigger] g.vmm_address@[x],
                    ) by {
                        let w = g.vmm_address@[x];
                        assert(pre.vmm.has_va(w));
                        assert(!oa.contains(w)) by {
                            if oa.contains(w) {
                                let y = choose|y: int| 0 <= y < oa.len() && oa[y] == w;
                                assert(g.vmm_address@[x] == fspec.vmm_address@[y]);
                            }
                        }
                    }
                }
                assert forall|p1: Seq<Seq<char>>, n1: Seq<char>, p2: Seq<Seq<char>>, n2: Seq<char>|
                    #![trigger file_at(self.root, p1, n1), file_at(self.root, p2, n2)]
                    ((p1 != p2 || n1 != n2) && file_at(self.root, p1, n1) is Some && file_at(
                        self.root,
                        p2,
                        n2,
                    ) is Some) implies addrs_disjoint(
                    file_at(self.root, p1, n1)->Some_0.vmm_address@,
                    file_at(self.root, p2, n2)->Some_0.vmm_address@,
                ) by {
                    assert(file_at(self.root, p1, n1) == file_at(pre.root, p1, n1));
                    assert(file_at(self.root, p2, n2) == file_at(pre.root, p2, n2));
                }
                assert(self.cwd == pre.cwd && self.vpm == pre.vpm);
                assert(file_at(pre.root, parent, name@) is Some);
                assert(file_at(self.root, parent, name@) is None);
                assert(self.root.lookup(parent) is Some);
                assert(!self.root.lookup(parent)->Some_0.has_file(name@));
                assert(self.root.lookup(parent)->Some_0.subdirectories@ == pre.root.lookup(
                    parent,
                )->Some_0.subdirectories@);
                assert forall|p: Seq<Seq<char>>, n2: Seq<char>|
                    (p != parent || n2 != name@) implies file_at(self.root, p, n2) == file_at(
                    pre.root,
                    p,
                    n2,
                ) by {
                    if p == parent {
                        let la = pre.root.lookup(parent)->Some_0;
                        let lb = self.root.lookup(parent)->Some_0;
                        pre.root.lemma_lookup_wf(parent);
                        self.root.lemma_lookup_wf(parent);
                        let fi = la.file_index(name@);
                        assert(0 <= fi < la.files@.len() && la.files@[fi].name@ == name@);
                        assert(lb.files@ == la.files@.remove(fi));
                        assert(forall|t: int| 0 <= t < fi ==> lb.files@[t] == la.files@[t]);
                        assert(forall|t: int|
                            fi <= t < lb.files@.len() ==> lb.files@[t] == la.files@[t + 1]);
                        if la.has_file(n2) {
                            let t0 = la.file_index(n2);
                            assert(0 <= t0 < la.files@.len() && la.files@[t0].name@ == n2);
                            assert(t0 != fi);
                            let t1: int = if t0 < fi {
                                t0
                            } else {
                                t0 - 1
                            };
                            assert(lb.files@[t1] == la.files@[t0]);
                            lb.lemma_file_at(n2, t1);
                            la.lemma_file_at(n2, t0);
                            assert(lb.file(n2) == la.file(n2));
                        } else {
                            assert(!lb.has_file(n2)) by {
                                if lb.has_file(n2) {
                                    let t = lb.file_index(n2);
                                    assert(0 <= t < lb.files@.len() && lb.files@[t].name@ == n2);
                                    let t0: int = if t < fi {
                                        t
                                    } else {
                                        t + 1
                                    };
                                    assert(la.files@[t0].name@ == n2);
                                    assert(la.has_file(n2));
                                }
                            }
                        }
                    }
                }
                assert(self.vmm.free_memory == pre.vmm.free_memory + fspec.vmm_address@.len()
                    * 4096);
                assert(self.vmm.total_memory == pre.vmm.total_memory);
                assert(in_use_frames(self.vmm.frames@) == in_use_frames(pre.vmm.frames@)
                    - fspec.vmm_address@.len());
                assert(forall|w: u64|
                    self.vmm.has_va(w) <==> (pre.vmm.has_va(w) && !fspec.vmm_address@.contains(
                        w,
                    )));
                assert(forall|w: u64|
                    self.vmm.has_va(w) ==> self.vmm.content_of(w) == pre.vmm.content_of(w));
                assert(remove_file_ok_post(pre, *self, parent, name@));
            }
            Ok(())
        } else {
            // a directory: detach it from its parent only
            match lookup_dir(&self.root, &full, 0) {
                Some(d) => {
                    proof {
                        assert(seg_views(full@).skip(0) =~= seg_views(full@));
                    }
                    if find_subdir_index(d, name.as_str()).is_none() {
                        return Err(KernelError::NotFound);
                    }
                },
                None => {
                    proof {
                        assert(seg_views(full@).skip(0) =~= seg_views(full@));
                    }
                    return Err(KernelError::NotFound);
                },
            }
            remove_dir_at(&mut self.root, &full, 0, name.as_str());
            proof {
                assert(seg_views(full@).skip(0) =~= parent);
                lemma_tree_detach_dir(pre.root, self.root, parent, 0, name@);
                assert forall|p: Seq<Seq<char>>, n2: Seq<char>|
                    (#[trigger] file_at(self.root, p, n2)) is Some implies file_ok(
                    file_at(self.root, p, n2)->Some_0,
                    self.vmm,
                ) by {
                    assert(file_at(pre.root, p, n2) == file_at(self.root, p, n2));
                    let g = file_at(pre.root, p, n2)->Some_0;
                    assert(file_ok(g, pre.vmm));
                }
                assert forall|p1: Seq<Seq<char>>, n1: Seq<char>, p2: Seq<Seq<char>>, n2: Seq<char>|
                    #![trigger file_at(self.root, p1, n1), file_at(self.root, p2, n2)]
                    ((p1 != p2 || n1 != n2) && file_at(self.root, p1, n1) is Some && file_at(
                        self.root,
                        p2,
                        n2,
                    ) is Some) implies addrs_disjoint(
                    file_at(self.root, p1, n1)->Some_0.vmm_address@,
                    file_at(self.root, p2, n2)->Some_0.vmm_address@,
                ) by {
                    assert(file_at(self.root, p1, n1) == file_at(pre.root, p1, n1));
                    assert(file_at(self.root, p2, n2) == file_at(pre.root, p2, n2));
                }
            }
            Ok(())
        }
    }
}

/// The text that a byte buffer decodes to, when it is valid UTF-8.
pub uninterp spec fn utf8_decode(b: Seq<u8>) -> Option<Seq<char>>;

/// Relies on String::from_utf8: it succeeds exactly on valid UTF-8 input,
/// and the decoded text is a function of the bytes alone.
#[verifier::external_body]
fn bytes_to_utf8(bytes: Vec<u8>) -> (r: Option<String>)
    ensures
        r matches Some(s) ==> utf8_decode(bytes@) == Some(s@),
        r is None ==> utf8_decode(bytes@) is None,
{
    match String::from_utf8(bytes) {
        Ok(s) => Some(s),
        Err(_) => None,
    }
}

/// What the recursive file search finds from a directory: the file under
/// the whole path used as a name, or, for a segmented path, the first
/// find in a subdirectory named by any of its segments.
pub open spec fn search_spec(d: Directory, path: Seq<char>) -> Option<File>
    decreases d, path_segments(path).len() + 1,
{
    if d.has_file(path) {
        Some(d.file(path))
    } else if path.contains('/') {
        search_list_spec(d, path_segments(path), path, 0)
    } else {
        None
    }
}

pub open spec fn search_list_spec(
    d: Directory,
    segs: Seq<Seq<char>>,
    path: Seq<char>,
    k: int,
) -> Option<File>
    decreases d, segs.len() - k,
{
    if k < 0 || k >= segs.len() {
        None
    } else if d.has_subdir(segs[k]) {
        match search_spec(d.subdir(segs[k]), path) {
            Some(f) => Some(f),
            None => search_list_spec(d, segs, path, k + 1),
        }
    } else {
        search_list_spec(d, segs, path, k + 1)
    }
}

impl Vfs {
    /// Retrieve a file's full byte range through the memory manager and
    /// decode it as UTF-8 text.
    pub fn read_file_content_bytes_to_utf8(&self, file: &File) -> (r: Option<String>)
        requires
            self.inv(),
        ensures
            r is Some <==> (self.vmm.readable(file.vmm_address@) && utf8_decode(
                self.vmm.read_spec(file.vmm_address@, file.size),
            ) is Some),
            r matches Some(s) ==> utf8_decode(self.vmm.read_spec(file.vmm_address@, file.size))
                == Some(s@),
    {
        let addrs = copy_addrs(&file.vmm_address);
        match self.vmm.get_bytes(addrs, file.size) {
            Ok(bytes) => bytes_to_utf8(bytes),
            Err(_) => None,
        }
    }

    /// Read the named file from the working directory as UTF-8 text.  A
    /// missing file is `NotFound`; a file whose pages hold no content is
    /// an `InvariantViolation`; bytes that do not decode are
    /// `Unsupported`.
    pub fn read_file(&self, filename: &str) -> (r: Result<String, KernelError>)
        requires
            self.inv(),
        ensures
            !(self.cwd_dir() is Some && self.cwd_dir()->Some_0.has_file(filename@)) ==> r
                == Err::<String, KernelError>(KernelError::NotFound),
            self.cwd_dir() is Some && self.cwd_dir()->Some_0.has_file(filename@) ==> ({
                let g = self.cwd_dir()->Some_0.file(filename@);
                let text = utf8_decode(self.vmm.read_spec(g.vmm_address@, g.size));
                &&& (!self.vmm.readable(g.vmm_address@) ==> r == Err::<String, KernelError>(
                    KernelError::InvariantViolation,
                ))
                &&& (self.vmm.readable(g.vmm_address@) && text is None ==> r == Err::<
                    String,
                    KernelError,
                >(KernelError::Unsupported))
                &&& (self.vmm.readable(g.vmm_address@) && text is Some ==> r is Ok && Some(
                    r->Ok_0@,
                ) == text)
            }),
    {
        let f = match self.get_file_in_cwd(filename) {
            Some(f) => f,
            None => {
                return Err(KernelError::NotFound);
            },
        };
        let size = f.size;
        match self.vmm.get_bytes(f.vmm_address, size) {
            Ok(bytes) => match bytes_to_utf8(bytes) {
                Some(s) => Ok(s),
                None => Err(KernelError::Unsupported),
            },
            Err(_) => Err(KernelError::InvariantViolation),
        }
    }

    /// Search for a file from `current_dir`: first under the whole path
    /// used as a name here, then inside any subdirectory named by one of
    /// the path's segments, handing a find back up through the recursion.
    pub fn search_file_recursive(&self, filepath: &str, current_dir: &Directory) -> (r: Option<
        File,
    >)
        requires
            current_dir.wf(),
        ensures
            r is Some <==> search_spec(*current_dir, filepath@) is Some,
            r matches Some(f) ==> ({
                let g = search_spec(*current_dir, filepath@)->Some_0;
                &&& f.name@ == g.name@
                &&& f.path@ == g.path@
                &&& f.vmm_address@ == g.vmm_address@
                &&& f.size == g.size
            }),
        decreases *current_dir,
    {
        match find_file_index(current_dir, filepath) {
            Some(fi) => {
                proof {
                    current_dir.lemma_file_at(filepath@, fi as int);
                }
                return Some(
                    File {
                        name: current_dir.files[fi].name.clone(),
                        path: current_dir.files[fi].path.clone(),
                        vmm_address: copy_addrs(&current_dir.files[fi].vmm_address),
                        size: current_dir.files[fi].size,
                    },
                );
            },
            None => {},
        }
        if !contains_char(filepath, '/') {
            return None;
        }
        let segs = split_path(filepath);
        let ghost vs = path_segments(filepath@);
        let mut k: usize = 0;
        while k < segs.len()
            invariant
                current_dir.wf(),
                seg_views(segs@) == vs,
                vs == path_segments(filepath@),
                !current_dir.has_file(filepath@),
                filepath@.contains('/'),
                k <= segs@.len(),
                search_list_spec(*current_dir, vs, filepath@, 0) == search_list_spec(
                    *current_dir,
                    vs,
                    filepath@,
                    k as int,
                ),
            decreases segs@.len() - k,
        {
            match find_subdir_index(current_dir, segs[k].as_str()) {
                Some(j) => {
                    proof {
                        current_dir.lemma_subdir_at(segs@[k as int]@, j as int);
                        assert(current_dir.subdir(vs[k as int])
                            == current_dir.subdirectories@[j as int]);
                    }
                    let sub = self.search_file_recursive(
                        filepath,
                        &current_dir.subdirectories[j],
                    );
                    if sub.is_some() {
                        proof {
                            assert(search_list_spec(*current_dir, vs, filepath@, k as int)
                                == search_spec(current_dir.subdir(vs[k as int]), filepath@));
                        }
                        return sub;
                    }
                    proof {
                        assert(search_list_spec(*current_dir, vs, filepath@, k as int)
                            == search_list_spec(*current_dir, vs, filepath@, k as int + 1));
                    }
                },
                None => {
                    proof {
                        assert(search_list_spec(*current_dir, vs, filepath@, k as int)
                            == search_list_spec(*current_dir, vs, filepath@, k as int + 1));
                    }
                },
            }
            k = k + 1;
        }
        proof {
            assert(search_list_spec(*current_dir, vs, filepath@, segs@.len() as int) is None);
        }
        None
    }
}

/// Where a path points: from the root when absolute, from the cwd
/// otherwise.
pub open spec fn resolve(cwd: Seq<Seq<char>>, path: Seq<char>) -> Seq<Seq<char>> {
    if path.len() > 0 && path[0] == '/' {
        path_segments(path)
    } else {
        cwd + path_segments(path)
    }
}

/// Build the file system the simulator starts with: a four-gibibyte
/// memory manager under a fresh process identity.
pub fn init_vfs() -> (r: Vfs)
    ensures
        r.inv(),
        r.cwd@.len() == 0,
        r.vmm.total_memory == 4294967296,
        r.vmm.free_memory == 4294967296,
        forall|p: Seq<Seq<char>>, n: Seq<char>| file_at(r.root, p, n) is None,
{
    let vmm = Vmm::new(1024 * 1024 * 1024 * 4);
    let vpm = Vpm::new();
    Vfs::new(vpm, vmm)
}

} // verus!
