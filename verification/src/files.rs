use vstd::prelude::*;

verus! {

/// A file entry: its name (as raw bytes, the way the scanner reports it) and
/// its size in bytes.
pub struct File {
    pub name: Vec<u8>,
    pub size: u64,
}

/// A folder entry: its name, the aggregate size of everything below it, the
/// number of entries below it, and its direct children in insertion order.
pub struct Folder {
    pub name: Vec<u8>,
    pub size: u64,
    pub descendant_count: u64,
    pub children: Vec<FileOrFolder>,
}

/// One node of the in-memory mirror of the scanned filesystem subtree.
pub enum FileOrFolder {
    File(File),
    Folder(Folder),
}

pub open spec fn fof_name(f: FileOrFolder) -> Seq<u8> {
    match f {
        FileOrFolder::File(file) => file.name@,
        FileOrFolder::Folder(folder) => folder.name@,
    }
}

/// The size an entry contributes to its parent: a file its own size, a folder
/// its aggregate size.
pub open spec fn fof_size(f: FileOrFolder) -> u64 {
    match f {
        FileOrFolder::File(file) => file.size,
        FileOrFolder::Folder(folder) => folder.size,
    }
}

/// The number of tree nodes an entry stands for: itself, plus (for a folder)
/// the descendants its `descendant_count` field records.
pub open spec fn fof_subcount(f: FileOrFolder) -> int {
    match f {
        FileOrFolder::File(_) => 1,
        FileOrFolder::Folder(folder) => 1 + folder.descendant_count,
    }
}

pub open spec fn sum_sizes(s: Seq<FileOrFolder>) -> int
    decreases s.len(),
{
    if s.len() == 0 {
        0
    } else {
        fof_size(s[0]) + sum_sizes(s.skip(1))
    }
}

pub open spec fn sum_counts(s: Seq<FileOrFolder>) -> int
    decreases s.len(),
{
    if s.len() == 0 {
        0
    } else {
        fof_subcount(s[0]) + sum_counts(s.skip(1))
    }
}

pub open spec fn unique_names(s: Seq<FileOrFolder>) -> bool {
    forall|i: int, j: int|
        0 <= i < j < s.len() ==> fof_name(#[trigger] s[i]) != fof_name(#[trigger] s[j])
}

/// Well-formedness of the first `n` entries of a child sequence.
pub open spec fn wf_children(s: Seq<FileOrFolder>, n: int) -> bool
    decreases s, n,
{
    if n <= 0 || s.len() < n {
        true
    } else {
        wf_children(s, n - 1) && wf_fof(s[n - 1])
    }
}

/// The aggregate-size invariant, at every node: a folder's `size` is the sum
/// of its direct children's sizes, its `descendant_count` counts every entry
/// below it, and sibling names are distinct.
pub open spec fn wf_fof(f: FileOrFolder) -> bool
    decreases f, 0int,
{
    match f {
        FileOrFolder::File(_) => true,
        FileOrFolder::Folder(folder) => {
            &&& folder.size as int == sum_sizes(folder.children@)
            &&& folder.descendant_count as int == sum_counts(folder.children@)
            &&& unique_names(folder.children@)
            &&& wf_children(folder.children@, folder.children@.len() as int)
        },
    }
}

pub open spec fn wf_folder(folder: Folder) -> bool {
    wf_fof(FileOrFolder::Folder(folder))
}

/// Index of the first child named `name`, or -1 if there is none.
pub open spec fn find_index(s: Seq<FileOrFolder>, name: Seq<u8>) -> int
    decreases s.len(),
{
    if s.len() == 0 {
        -1
    } else if fof_name(s[0]) == name {
        0
    } else {
        let r = find_index(s.skip(1), name);
        if r == -1 {
            -1
        } else {
            r + 1
        }
    }
}

/// The child of `folder` named `name`, if any.
pub open spec fn lookup(s: Seq<FileOrFolder>, name: Seq<u8>) -> Option<FileOrFolder> {
    if find_index(s, name) == -1 {
        None
    } else {
        Some(s[find_index(s, name)])
    }
}

/// The folder reached from `folder` by following the names in `cursor`.
pub open spec fn folder_at(folder: Folder, cursor: Seq<Seq<u8>>) -> Option<Folder>
    decreases cursor.len(),
{
    if cursor.len() == 0 {
        Some(folder)
    } else {
        match lookup(folder.children@, cursor[0]) {
            Some(FileOrFolder::Folder(child)) => folder_at(child, cursor.skip(1)),
            _ => None,
        }
    }
}

pub proof fn lemma_wf_children_index(s: Seq<FileOrFolder>, n: int, i: int)
    requires
        wf_children(s, n),
        0 <= i < n <= s.len(),
    ensures
        wf_fof(s[i]),
    decreases n,
{
    if i < n - 1 {
        lemma_wf_children_index(s, n - 1, i);
    }
}

pub proof fn lemma_wf_children_all(s: Seq<FileOrFolder>, n: int)
    requires
        forall|i: int| 0 <= i < n ==> wf_fof(#[trigger] s[i]),
        n <= s.len(),
    ensures
        wf_children(s, n),
    decreases n,
{
    if n > 0 {
        lemma_wf_children_all(s, n - 1);
    }
}

/// `find_index` finds exactly the first child carrying `name`.
pub proof fn lemma_find_index(s: Seq<FileOrFolder>, name: Seq<u8>)
    ensures
        find_index(s, name) == -1 ==> forall|i: int|
            0 <= i < s.len() ==> fof_name(#[trigger] s[i]) != name,
        find_index(s, name) != -1 ==> {
            &&& 0 <= find_index(s, name) < s.len()
            &&& fof_name(s[find_index(s, name)]) == name
            &&& forall|i: int| 0 <= i < find_index(s, name) ==> fof_name(#[trigger] s[i]) != name
        },
    decreases s.len(),
{
    if s.len() > 0 && fof_name(s[0]) != name {
        lemma_find_index(s.skip(1), name);
        assert(forall|i: int| 1 <= i < s.len() ==> s.skip(1)[i - 1] == #[trigger] s[i]);
    }
}

pub proof fn lemma_sums_push(s: Seq<FileOrFolder>, x: FileOrFolder)
    ensures
        sum_sizes(s.push(x)) == sum_sizes(s) + fof_size(x),
        sum_counts(s.push(x)) == sum_counts(s) + fof_subcount(x),
    decreases s.len(),
{
    let t = s.push(x);
    assert(t.len() == s.len() + 1);
    assert(sum_sizes(t) == fof_size(t[0]) + sum_sizes(t.skip(1)));
    assert(sum_counts(t) == fof_subcount(t[0]) + sum_counts(t.skip(1)));
    if s.len() == 0 {
        assert(t[s.len() as int] == x);
        assert(t.skip(1) =~= Seq::<FileOrFolder>::empty());
        assert(sum_sizes(t.skip(1)) == 0);
        assert(sum_counts(t.skip(1)) == 0);
    } else {
        assert(t[0] == s[0]);
        assert(t.skip(1) =~= s.skip(1).push(x));
        lemma_sums_push(s.skip(1), x);
        assert(sum_sizes(s) == fof_size(s[0]) + sum_sizes(s.skip(1)));
        assert(sum_counts(s) == fof_subcount(s[0]) + sum_counts(s.skip(1)));
    }
}

pub proof fn lemma_sums_update(s: Seq<FileOrFolder>, i: int, x: FileOrFolder)
    requires
        0 <= i < s.len(),
    ensures
        sum_sizes(s.update(i, x)) == sum_sizes(s) - fof_size(s[i]) + fof_size(x),
        sum_counts(s.update(i, x)) == sum_counts(s) - fof_subcount(s[i]) + fof_subcount(x),
    decreases s.len(),
{
    if i == 0 {
        assert(s.update(0, x).skip(1) =~= s.skip(1));
    } else {
        assert(s.update(i, x).skip(1) =~= s.skip(1).update(i - 1, x));
        lemma_sums_update(s.skip(1), i - 1, x);
    }
}

pub proof fn lemma_sums_remove(s: Seq<FileOrFolder>, i: int)
    requires
        0 <= i < s.len(),
    ensures
        sum_sizes(s.remove(i)) == sum_sizes(s) - fof_size(s[i]),
        sum_counts(s.remove(i)) == sum_counts(s) - fof_subcount(s[i]),
    decreases s.len(),
{
    if i == 0 {
        assert(s.remove(0) =~= s.skip(1));
    } else {
        assert(s.remove(i).skip(1) =~= s.skip(1).remove(i - 1));
        lemma_sums_remove(s.skip(1), i - 1);
    }
}

/// Every term of either sum is bounded by the whole sum: the terms are
/// non-negative.
pub proof fn lemma_sums_member_bound(s: Seq<FileOrFolder>, i: int)
    requires
        0 <= i < s.len(),
    ensures
        fof_size(s[i]) <= sum_sizes(s),
        fof_subcount(s[i]) <= sum_counts(s),
        sum_sizes(s) >= 0,
        sum_counts(s) >= s.len(),
    decreases s.len(),
{
    lemma_sums_nonneg(s);
    if i > 0 {
        lemma_sums_member_bound(s.skip(1), i - 1);
    } else {
        lemma_sums_nonneg(s.skip(1));
    }
}

pub proof fn lemma_sums_nonneg(s: Seq<FileOrFolder>)
    ensures
        sum_sizes(s) >= 0,
        sum_counts(s) >= s.len(),
    decreases s.len(),
{
    if s.len() > 0 {
        lemma_sums_nonneg(s.skip(1));
    }
}

/// Byte-for-byte equality of two names.
pub fn bytes_eq(a: &Vec<u8>, b: &Vec<u8>) -> (r: bool)
    ensures
        r == (a@ == b@),
{
    if a.len() != b.len() {
        assert(a@ != b@);
        return false;
    }
    let mut i: usize = 0;
    while i < a.len()
        invariant
            i <= a.len(),
            a@.len() == b@.len(),
            forall|j: int| 0 <= j < i ==> a@[j] == b@[j],
        decreases a.len() - i,
    {
        if a[i] != b[i] {
            return false;
        }
        i += 1;
    }
    proof {
        assert(a@ =~= b@);
    }
    true
}

/// First child of `s` named `name`, as an index.
pub fn find_child(s: &Vec<FileOrFolder>, name: &Vec<u8>) -> (r: Option<usize>)
    ensures
        match r {
            Some(i) => find_index(s@, name@) == i as int,
            None => find_index(s@, name@) == -1,
        },
{
    proof {
        lemma_find_index(s@, name@);
    }
    let mut i: usize = 0;
    while i < s.len()
        invariant
            i <= s@.len(),
            forall|j: int| 0 <= j < i ==> fof_name(#[trigger] s@[j]) != name@,
            find_index(s@, name@) == -1 ==> forall|j: int|
                0 <= j < s@.len() ==> fof_name(#[trigger] s@[j]) != name@,
            find_index(s@, name@) != -1 ==> {
                &&& 0 <= find_index(s@, name@) < s@.len()
                &&& fof_name(s@[find_index(s@, name@)]) == name@
                &&& forall|j: int|
                    0 <= j < find_index(s@, name@) ==> fof_name(#[trigger] s@[j]) != name@
            },
        decreases s@.len() - i,
    {
        let matched = match &s[i] {
            FileOrFolder::File(file) => bytes_eq(&file.name, name),
            FileOrFolder::Folder(folder) => bytes_eq(&folder.name, name),
        };
        if matched {
            return Some(i);
        }
        i += 1;
    }
    None
}

/// A copy of a byte string.
pub fn clone_bytes(v: &Vec<u8>) -> (r: Vec<u8>)
    ensures
        r@ == v@,
{
    let mut r: Vec<u8> = Vec::new();
    let mut i: usize = 0;
    while i < v.len()
        invariant
            i <= v@.len(),
            r@ == v@.take(i as int),
        decreases v@.len() - i,
    {
        r.push(v[i]);
        proof {
            assert(r@ =~= v@.take(i + 1 as int));
        }
        i += 1;
    }
    proof {
        assert(v@.take(v@.len() as int) =~= v@);
    }
    r
}

/// A copy of a path, component by component.
pub fn clone_path(v: &Vec<Vec<u8>>) -> (r: Vec<Vec<u8>>)
    ensures
        r.deep_view() == v.deep_view(),
{
    let mut r: Vec<Vec<u8>> = Vec::new();
    let mut i: usize = 0;
    while i < v.len()
        invariant
            i <= v@.len(),
            r@.len() == i as int,
            forall|j: int| 0 <= j < i ==> (#[trigger] r@[j])@ == v@[j]@,
        decreases v@.len() - i,
    {
        let c = clone_bytes(&v[i]);
        r.push(c);
        i += 1;
    }
    proof {
        assert(r.deep_view() =~~= v.deep_view());
    }
    r
}

/// What an entry adds to the aggregate size of every folder above it: a
/// file its size; a folder nothing until its own entries arrive.
pub open spec fn entry_size(size: u64, is_dir: bool) -> int {
    if is_dir {
        0
    } else {
        size as int
    }
}

/// An entry may be inserted at (relative) `path`: no entry sits at `path`
/// already, and nothing but folders sits at its proper prefixes.
pub open spec fn can_add(folder: Folder, path: Seq<Seq<u8>>) -> bool
    decreases path.len(),
{
    path.len() > 0 && {
        let i = find_index(folder.children@, path[0]);
        if path.len() == 1 {
            i == -1
        } else if i == -1 {
            true
        } else {
            match folder.children@[i] {
                FileOrFolder::Folder(child) => can_add(child, path.skip(1)),
                FileOrFolder::File(_) => false,
            }
        }
    }
}

/// How many nodes inserting at `path` creates: the missing suffix of the
/// path, intermediate folders included.
pub open spec fn created_count(folder: Folder, path: Seq<Seq<u8>>) -> int
    decreases path.len(),
{
    if path.len() == 0 {
        0
    } else {
        let i = find_index(folder.children@, path[0]);
        if i == -1 {
            path.len() as int
        } else {
            match folder.children@[i] {
                FileOrFolder::Folder(child) => created_count(child, path.skip(1)),
                FileOrFolder::File(_) => 0,
            }
        }
    }
}

/// The node a single discovered entry becomes.
pub open spec fn is_new_entry(f: FileOrFolder, name: Seq<u8>, size: u64, is_dir: bool) -> bool {
    match f {
        FileOrFolder::Folder(c) => {
            &&& is_dir
            &&& c.name@ == name
            &&& c.size == 0
            &&& c.descendant_count == 0
            &&& c.children@.len() == 0
        },
        FileOrFolder::File(file) => !is_dir && file.name@ == name && file.size == size,
    }
}

/// A chain of freshly created folders ending in the new entry: one node per
/// remaining path component.
pub open spec fn fresh_branch(f: FileOrFolder, path: Seq<Seq<u8>>, size: u64, is_dir: bool) -> bool
    decreases path.len(),
{
    if path.len() == 0 {
        false
    } else if path.len() == 1 {
        is_new_entry(f, path[0], size, is_dir)
    } else {
        match f {
            FileOrFolder::Folder(c) => {
                &&& c.name@ == path[0]
                &&& c.size as int == entry_size(size, is_dir)
                &&& c.descendant_count as int == path.len() - 1
                &&& c.children@.len() == 1
                &&& fresh_branch(c.children@[0], path.skip(1), size, is_dir)
            },
            FileOrFolder::File(_) => false,
        }
    }
}

/// Exactly how a folder changes when an entry is inserted at `path` below
/// it: the sizes of every folder along the path grow by the entry's size,
/// the missing suffix of the path is created, and everything else is
/// untouched.
pub open spec fn after_add(o: Folder, n: Folder, path: Seq<Seq<u8>>, size: u64, is_dir: bool) -> bool
    decreases path.len(),
{
    path.len() > 0 && {
        let i = find_index(o.children@, path[0]);
        &&& n.name == o.name
        &&& n.size as int == o.size + entry_size(size, is_dir)
        &&& n.descendant_count as int == o.descendant_count + created_count(o, path)
        &&& if i == -1 {
            &&& n.children@.len() == o.children@.len() + 1
            &&& n.children@.take(o.children@.len() as int) == o.children@
            &&& fresh_branch(n.children@.last(), path, size, is_dir)
        } else {
            &&& n.children@.len() == o.children@.len()
            &&& (forall|j: int|
                0 <= j < o.children@.len() && j != i ==> n.children@[j] == #[trigger] o.children@[j])
            &&& match (o.children@[i], n.children@[i]) {
                (FileOrFolder::Folder(oc), FileOrFolder::Folder(nc)) => after_add(
                    oc,
                    nc,
                    path.skip(1),
                    size,
                    is_dir,
                ),
                _ => false,
            }
        }
    }
}

pub proof fn lemma_created_count_bounds(folder: Folder, path: Seq<Seq<u8>>)
    ensures
        0 <= created_count(folder, path) <= path.len(),
    decreases path.len(),
{
    if path.len() > 0 {
        let i = find_index(folder.children@, path[0]);
        if i != -1 {
            lemma_find_index(folder.children@, path[0]);
            match folder.children@[i] {
                FileOrFolder::Folder(child) => {
                    lemma_created_count_bounds(child, path.skip(1));
                },
                FileOrFolder::File(_) => {},
            }
        }
    }
}

pub proof fn lemma_fresh_branch_wf(f: FileOrFolder, path: Seq<Seq<u8>>, size: u64, is_dir: bool)
    requires
        fresh_branch(f, path, size, is_dir),
    ensures
        wf_fof(f),
        fof_size(f) as int == entry_size(size, is_dir),
        fof_subcount(f) == path.len(),
        fof_name(f) == path[0],
    decreases path.len(),
{
    if path.len() == 1 {
        match f {
            FileOrFolder::Folder(c) => {
                assert(sum_sizes(c.children@) == 0);
                assert(sum_counts(c.children@) == 0);
            },
            FileOrFolder::File(_) => {},
        }
    } else {
        match f {
            FileOrFolder::Folder(c) => {
                lemma_fresh_branch_wf(c.children@[0], path.skip(1), size, is_dir);
                assert(c.children@.skip(1) =~= Seq::<FileOrFolder>::empty());
                assert(sum_sizes(Seq::<FileOrFolder>::empty()) == 0);
                assert(sum_counts(Seq::<FileOrFolder>::empty()) == 0);
                assert(sum_sizes(c.children@) == fof_size(c.children@[0]) + 0);
                assert(sum_counts(c.children@) == fof_subcount(c.children@[0]) + 0);
                lemma_wf_children_all(c.children@, 1);
            },
            FileOrFolder::File(_) => {},
        }
    }
}

pub proof fn lemma_add_preserves_wf(o: Folder, n: Folder, path: Seq<Seq<u8>>, size: u64, is_dir: bool)
    requires
        wf_folder(o),
        can_add(o, path),
        after_add(o, n, path, size, is_dir),
    ensures
        wf_folder(n),
    decreases path.len(),
{
    let oc = o.children@;
    let nc = n.children@;
    lemma_find_index(oc, path[0]);
    let i = find_index(oc, path[0]);
    if i == -1 {
        assert(nc =~= oc.push(nc.last()));
        lemma_fresh_branch_wf(nc.last(), path, size, is_dir);
        lemma_sums_push(oc, nc.last());
        assert(created_count(o, path) == path.len());
        assert forall|p: int, q: int| 0 <= p < q < nc.len() implies fof_name(#[trigger] nc[p])
            != fof_name(#[trigger] nc[q]) by {
            if q < nc.len() - 1 {
                assert(nc[p] == oc[p] && nc[q] == oc[q]);
            } else {
                assert(nc[q] == nc.last());
                assert(fof_name(nc[q]) == path[0]);
                assert(nc[p] == oc[p]);
            }
        }
        assert forall|p: int| 0 <= p < nc.len() implies wf_fof(#[trigger] nc[p]) by {
            if p < nc.len() - 1 {
                assert(nc[p] == oc[p]);
                lemma_wf_children_index(oc, oc.len() as int, p);
            } else {
                assert(nc[p] == nc.last());
            }
        }
        lemma_wf_children_all(nc, nc.len() as int);
    } else {
        assert(nc =~= oc.update(i, nc[i]));
        lemma_sums_update(oc, i, nc[i]);
        lemma_wf_children_index(oc, oc.len() as int, i);
        match (oc[i], nc[i]) {
            (FileOrFolder::Folder(ocf), FileOrFolder::Folder(ncf)) => {
                reveal_with_fuel(after_add, 2);
                lemma_add_preserves_wf(ocf, ncf, path.skip(1), size, is_dir);
                assert(oc[i] == FileOrFolder::Folder(ocf));
                assert(nc[i] == FileOrFolder::Folder(ncf));
                assert(ncf.name == ocf.name);
                assert(fof_name(nc[i]) == fof_name(oc[i]));
                assert forall|p: int, q: int| 0 <= p < q < nc.len() implies fof_name(
                    #[trigger] nc[p],
                ) != fof_name(#[trigger] nc[q]) by {
                    assert(fof_name(nc[p]) == fof_name(oc[p]));
                    assert(fof_name(nc[q]) == fof_name(oc[q]));
                }
                assert forall|p: int| 0 <= p < nc.len() implies wf_fof(#[trigger] nc[p]) by {
                    if p != i {
                        assert(nc[p] == oc[p]);
                        lemma_wf_children_index(oc, oc.len() as int, p);
                    }
                }
                lemma_wf_children_all(nc, nc.len() as int);
            },
            _ => {},
        }
    }
}

impl Folder {
    /// Insert a discovered entry at the path suffix `path[depth..]`,
    /// creating missing intermediate folders and keeping every aggregate
    /// along the way exact.
    fn add_at(&mut self, path: &Vec<Vec<u8>>, depth: usize, size: u64, is_dir: bool)
        requires
            depth < path@.len(),
            wf_folder(*old(self)),
            can_add(*old(self), path.deep_view().skip(depth as int)),
            old(self).size + entry_size(size, is_dir) <= u64::MAX,
            old(self).descendant_count + path@.len() - depth <= u64::MAX,
        ensures
            after_add(*old(self), *final(self), path.deep_view().skip(depth as int), size, is_dir),
            wf_folder(*final(self)),
        decreases path@.len() - depth,
    {
        let ghost rel = path.deep_view().skip(depth as int);
        proof {
            assert(rel[0] =~= path@[depth as int]@);
            lemma_find_index(self.children@, rel[0]);
        }
        let name: &Vec<u8> = &path[depth];
        let idx = find_child(&self.children, name);
        if path.len() == depth + 1 {
            let entry = if is_dir {
                FileOrFolder::Folder(
                    Folder {
                        name: clone_bytes(name),
                        size: 0,
                        descendant_count: 0,
                        children: Vec::new(),
                    },
                )
            } else {
                FileOrFolder::File(File { name: clone_bytes(name), size })
            };
            proof {
                assert(is_new_entry(entry, rel[0], size, is_dir));
            }
            self.children.push(entry);
            if !is_dir {
                self.size = self.size + size;
            }
            self.descendant_count = self.descendant_count + 1;
            proof {
                assert(self.children@.last() == entry);
                assert(self.children@.take(old(self).children@.len() as int) =~= old(
                    self,
                ).children@);
                assert(after_add(*old(self), *self, rel, size, is_dir));
                lemma_add_preserves_wf(*old(self), *self, rel, size, is_dir);
            }
        } else {
            proof {
                assert(rel.skip(1) =~= path.deep_view().skip(depth + 1 as int));
            }
            match idx {
                Some(i) => {
                    proof {
                        lemma_wf_children_index(
                            self.children@,
                            self.children@.len() as int,
                            i as int,
                        );
                        lemma_sums_member_bound(self.children@, i as int);
                    }
                    let child = self.children.remove(i);
                    match child {
                        FileOrFolder::Folder(f) => {
                            let mut f = f;
                            let count_before = f.descendant_count;
                            f.add_at(path, depth + 1, size, is_dir);
                            proof {
                                lemma_created_count_bounds(*old(self), rel);
                            }
                            let delta = f.descendant_count - count_before;
                            self.children.insert(i, FileOrFolder::Folder(f));
                            if !is_dir {
                                self.size = self.size + size;
                            }
                            self.descendant_count = self.descendant_count + delta;
                            proof {
                                assert(self.children@ =~= old(self).children@.update(
                                    i as int,
                                    self.children@[i as int],
                                ));
                                assert(after_add(*old(self), *self, rel, size, is_dir));
                                lemma_add_preserves_wf(*old(self), *self, rel, size, is_dir);
                            }
                        },
                        FileOrFolder::File(file) => {
                            proof {
                                assert(false);
                            }
                            self.children.insert(i, FileOrFolder::File(file));
                        },
                    }
                },
                None => {
                    let mut f = Folder {
                        name: clone_bytes(name),
                        size: 0,
                        descendant_count: 0,
                        children: Vec::new(),
                    };
                    f.add_at(path, depth + 1, size, is_dir);
                    let created = (path.len() - depth) as u64;
                    self.children.push(FileOrFolder::Folder(f));
                    if !is_dir {
                        self.size = self.size + size;
                    }
                    self.descendant_count = self.descendant_count + created;
                    proof {
                        let nf = self.children@.last();
                        assert(fresh_branch(nf, rel, size, is_dir));
                        assert(self.children@.take(old(self).children@.len() as int) =~= old(
                            self,
                        ).children@);
                        assert(created_count(*old(self), rel) == rel.len());
                        assert(after_add(*old(self), *self, rel, size, is_dir));
                        lemma_add_preserves_wf(*old(self), *self, rel, size, is_dir);
                    }
                },
            }
        }
    }
}

/// The aggregate-size invariant reaches every folder node: under a
/// well-formed root, the node at any path is well formed itself, so its
/// `size` is exactly the sum of its children's sizes.
pub proof fn lemma_aggregate_size_everywhere(folder: Folder, path: Seq<Seq<u8>>)
    requires
        wf_folder(folder),
        node_at(folder, path) is Some,
    ensures
        wf_fof(node_at(folder, path).unwrap()),
        node_at(folder, path).unwrap() matches FileOrFolder::Folder(c) ==> c.size as int
            == sum_sizes(c.children@),
    decreases path.len(),
{
    if path.len() > 0 {
        let i = find_index(folder.children@, path[0]);
        lemma_find_index(folder.children@, path[0]);
        if i != -1 {
            lemma_wf_children_index(folder.children@, folder.children@.len() as int, i);
            if path.len() > 1 {
                match folder.children@[i] {
                    FileOrFolder::Folder(child) => {
                        lemma_aggregate_size_everywhere(child, path.skip(1));
                    },
                    FileOrFolder::File(_) => {},
                }
            }
        }
    }
}

/// Round-trip navigation: pushing a folder's name onto the cursor and
/// popping it again restores the cursor exactly, so `enter_folder`
/// followed by `leave_folder` is the identity on it.
pub proof fn lemma_navigation_round_trip(cursor: Seq<Seq<u8>>, name: Seq<u8>)
    ensures
        cursor.push(name).len() > 0,
        cursor.push(name).drop_last() == cursor,
{
    assert(cursor.push(name).drop_last() =~= cursor);
}

/// An entry sits at (relative) `path`: every component resolves, through
/// folders only.
pub open spec fn can_delete(folder: Folder, path: Seq<Seq<u8>>) -> bool
    decreases path.len(),
{
    path.len() > 0 && {
        let i = find_index(folder.children@, path[0]);
        i != -1 && if path.len() == 1 {
            true
        } else {
            match folder.children@[i] {
                FileOrFolder::Folder(child) => can_delete(child, path.skip(1)),
                FileOrFolder::File(_) => false,
            }
        }
    }
}

/// The node at `path` below `folder`, if any.
pub open spec fn node_at(folder: Folder, path: Seq<Seq<u8>>) -> Option<FileOrFolder>
    decreases path.len(),
{
    if path.len() == 0 {
        None
    } else {
        let i = find_index(folder.children@, path[0]);
        if i == -1 {
            None
        } else if path.len() == 1 {
            Some(folder.children@[i])
        } else {
            match folder.children@[i] {
                FileOrFolder::Folder(child) => node_at(child, path.skip(1)),
                FileOrFolder::File(_) => None,
            }
        }
    }
}

/// The size the entry at `path` takes away from every folder above it.
pub open spec fn deleted_size(folder: Folder, path: Seq<Seq<u8>>) -> int
    decreases path.len(),
{
    match node_at(folder, path) {
        Some(f) => fof_size(f) as int,
        None => 0,
    }
}

/// The number of nodes removing the entry at `path` takes away.
pub open spec fn deleted_count(folder: Folder, path: Seq<Seq<u8>>) -> int
    decreases path.len(),
{
    match node_at(folder, path) {
        Some(f) => fof_subcount(f),
        None => 0,
    }
}

/// Exactly how a folder changes when the entry at `path` below it is
/// removed: the entry's subtree goes, every folder along the path shrinks by
/// its size, and everything else is untouched.
pub open spec fn after_delete(o: Folder, n: Folder, path: Seq<Seq<u8>>) -> bool
    decreases path.len(),
{
    path.len() > 0 && {
        let i = find_index(o.children@, path[0]);
        &&& i != -1
        &&& n.name == o.name
        &&& n.size as int == o.size - deleted_size(o, path)
        &&& n.descendant_count as int == o.descendant_count - deleted_count(o, path)
        &&& if path.len() == 1 {
            n.children@ == o.children@.remove(i)
        } else {
            &&& n.children@.len() == o.children@.len()
            &&& (forall|j: int|
                0 <= j < o.children@.len() && j != i ==> n.children@[j] == #[trigger] o.children@[j])
            &&& match (o.children@[i], n.children@[i]) {
                (FileOrFolder::Folder(oc), FileOrFolder::Folder(nc)) => after_delete(
                    oc,
                    nc,
                    path.skip(1),
                ),
                _ => false,
            }
        }
    }
}

/// What a deletion removes is bounded by what its target's parent chain
/// holds.
pub proof fn lemma_deleted_bounds(folder: Folder, path: Seq<Seq<u8>>)
    requires
        wf_folder(folder),
        can_delete(folder, path),
    ensures
        0 <= deleted_size(folder, path) <= folder.size,
        1 <= deleted_count(folder, path) <= folder.descendant_count,
    decreases path.len(),
{
    let i = find_index(folder.children@, path[0]);
    lemma_find_index(folder.children@, path[0]);
    lemma_sums_member_bound(folder.children@, i);
    if path.len() > 1 {
        match folder.children@[i] {
            FileOrFolder::Folder(child) => {
                lemma_wf_children_index(folder.children@, folder.children@.len() as int, i);
                lemma_deleted_bounds(child, path.skip(1));
            },
            FileOrFolder::File(_) => {},
        }
    }
}

pub proof fn lemma_delete_preserves_wf(o: Folder, n: Folder, path: Seq<Seq<u8>>)
    requires
        wf_folder(o),
        can_delete(o, path),
        after_delete(o, n, path),
    ensures
        wf_folder(n),
    decreases path.len(),
{
    let oc = o.children@;
    let nc = n.children@;
    lemma_find_index(oc, path[0]);
    let i = find_index(oc, path[0]);
    if path.len() == 1 {
        assert(nc =~= oc.remove(i));
        lemma_sums_remove(oc, i);
        assert(forall|j: int| 0 <= j < i ==> nc[j] == oc[j]);
        assert(forall|j: int| i <= j < nc.len() ==> nc[j] == oc[j + 1]);
        assert forall|p: int, q: int| 0 <= p < q < nc.len() implies fof_name(#[trigger] nc[p])
            != fof_name(#[trigger] nc[q]) by {
            let p0 = if p < i {
                p
            } else {
                p + 1
            };
            let q0 = if q < i {
                q
            } else {
                q + 1
            };
            assert(nc[p] == oc[p0] && nc[q] == oc[q0]);
        }
        assert forall|p: int| 0 <= p < nc.len() implies wf_fof(#[trigger] nc[p]) by {
            let p0 = if p < i {
                p
            } else {
                p + 1
            };
            assert(nc[p] == oc[p0]);
            lemma_wf_children_index(oc, oc.len() as int, p0);
        }
        lemma_wf_children_all(nc, nc.len() as int);
    } else {
        assert(nc =~= oc.update(i, nc[i]));
        lemma_sums_update(oc, i, nc[i]);
        lemma_wf_children_index(oc, oc.len() as int, i);
        match (oc[i], nc[i]) {
            (FileOrFolder::Folder(ocf), FileOrFolder::Folder(ncf)) => {
                reveal_with_fuel(after_delete, 2);
                lemma_delete_preserves_wf(ocf, ncf, path.skip(1));
                assert(fof_name(nc[i]) == fof_name(oc[i]));
                assert forall|p: int, q: int| 0 <= p < q < nc.len() implies fof_name(
                    #[trigger] nc[p],
                ) != fof_name(#[trigger] nc[q]) by {
                    assert(fof_name(nc[p]) == fof_name(oc[p]));
                    assert(fof_name(nc[q]) == fof_name(oc[q]));
                }
                assert forall|p: int| 0 <= p < nc.len() implies wf_fof(#[trigger] nc[p]) by {
                    if p != i {
                        assert(nc[p] == oc[p]);
                        lemma_wf_children_index(oc, oc.len() as int, p);
                    }
                }
                lemma_wf_children_all(nc, nc.len() as int);
            },
            _ => {},
        }
    }
}

impl Folder {
    /// Remove the entry at the path suffix `path[depth..]`, shrinking every
    /// aggregate along the way by exactly what the entry held.
    fn delete_at(&mut self, path: &Vec<Vec<u8>>, depth: usize)
        requires
            depth < path@.len(),
            wf_folder(*old(self)),
            can_delete(*old(self), path.deep_view().skip(depth as int)),
        ensures
            after_delete(*old(self), *final(self), path.deep_view().skip(depth as int)),
            wf_folder(*final(self)),
        decreases path@.len() - depth,
    {
        let ghost rel = path.deep_view().skip(depth as int);
        proof {
            assert(rel[0] =~= path@[depth as int]@);
            lemma_find_index(self.children@, rel[0]);
            lemma_deleted_bounds(*old(self), rel);
        }
        let name: &Vec<u8> = &path[depth];
        let idx = find_child(&self.children, name);
        let i = match idx {
            Some(i) => i,
            None => {
                proof {
                    assert(false);
                }
                0
            },
        };
        proof {
            lemma_wf_children_index(self.children@, self.children@.len() as int, i as int);
            lemma_sums_member_bound(self.children@, i as int);
        }
        if path.len() == depth + 1 {
            let removed = self.children.remove(i);
            let (removed_size, removed_count) = match &removed {
                FileOrFolder::File(f) => (f.size, 1),
                FileOrFolder::Folder(c) => (c.size, c.descendant_count + 1),
            };
            self.size = self.size - removed_size;
            self.descendant_count = self.descendant_count - removed_count;
            proof {
                assert(after_delete(*old(self), *self, rel));
                lemma_delete_preserves_wf(*old(self), *self, rel);
            }
        } else {
            proof {
                assert(rel.skip(1) =~= path.deep_view().skip(depth + 1 as int));
            }
            let child = self.children.remove(i);
            match child {
                FileOrFolder::Folder(f) => {
                    let mut f = f;
                    let size_before = f.size;
                    let count_before = f.descendant_count;
                    f.delete_at(path, depth + 1);
                    let size_delta = size_before - f.size;
                    let count_delta = count_before - f.descendant_count;
                    self.children.insert(i, FileOrFolder::Folder(f));
                    self.size = self.size - size_delta;
                    self.descendant_count = self.descendant_count - count_delta;
                    proof {
                        assert(self.children@ =~= old(self).children@.update(
                            i as int,
                            self.children@[i as int],
                        ));
                        assert(after_delete(*old(self), *self, rel));
                        lemma_delete_preserves_wf(*old(self), *self, rel);
                    }
                },
                FileOrFolder::File(file) => {
                    proof {
                        assert(false);
                    }
                    self.children.insert(i, FileOrFolder::File(file));
                },
            }
        }
    }
}

/// Deletion consistency: removing the file at `path` lowers the root and
/// every folder along the path by exactly the file's size — `i` ranges
/// over the ancestors, from the root down to the file's parent.
pub proof fn lemma_deletion_consistency(o: Folder, n: Folder, path: Seq<Seq<u8>>, i: int)
    requires
        wf_folder(o),
        can_delete(o, path),
        after_delete(o, n, path),
        node_at(o, path) matches Some(FileOrFolder::File(_)),
        0 <= i < path.len(),
    ensures
        folder_at(o, path.take(i)) is Some,
        folder_at(n, path.take(i)) is Some,
        folder_at(n, path.take(i)).unwrap().size == folder_at(o, path.take(i)).unwrap().size
            - fof_size(node_at(o, path).unwrap()),
    decreases i,
{
    lemma_find_index(o.children@, path[0]);
    let i0 = find_index(o.children@, path[0]);
    if i == 0 {
        assert(path.take(0) =~= Seq::<Seq<u8>>::empty());
    } else {
        reveal_with_fuel(after_delete, 2);
        assert(path.len() > 1) by {
            if path.len() == 1 {
                assert(node_at(o, path) == Some(o.children@[i0]));
            }
        }
        let oc = o.children@;
        let nc = n.children@;
        assert forall|j: int| 0 <= j < oc.len() implies fof_name(#[trigger] oc[j]) == fof_name(
            #[trigger] nc[j],
        ) by {
            if j != i0 {
                assert(nc[j] == oc[j]);
            }
        }
        lemma_find_index_same_names(oc, nc, path[0]);
        match (oc[i0], nc[i0]) {
            (FileOrFolder::Folder(ocf), FileOrFolder::Folder(ncf)) => {
                lemma_wf_children_index(oc, oc.len() as int, i0);
                lemma_deletion_consistency(ocf, ncf, path.skip(1), i - 1);
                assert(path.take(i)[0] == path[0]);
                assert(path.take(i).skip(1) =~= path.skip(1).take(i - 1));
                lemma_find_index(nc, path.take(i)[0]);
            },
            _ => {},
        }
    }
}

/// After deleting the entry named `nm` one level below the cursor `c`,
/// no entry of that name is left in the cursor's folder.
pub proof fn lemma_deleted_name_absent(o: Folder, n: Folder, c: Seq<Seq<u8>>, nm: Seq<u8>)
    requires
        wf_folder(o),
        can_delete(o, c.push(nm)),
        after_delete(o, n, c.push(nm)),
        folder_at(o, c) is Some,
    ensures
        folder_at(n, c) is Some,
        lookup(folder_at(n, c).unwrap().children@, nm) is None,
    decreases c.len(),
{
    let path = c.push(nm);
    lemma_delete_in_cursor(o, n, c, nm);
    lemma_find_index(o.children@, path[0]);
    if c.len() == 0 {
        let i = find_index(o.children@, nm);
        assert(path[0] == nm && path.len() == 1);
        let nc = n.children@;
        assert(nc == o.children@.remove(i));
        assert(forall|j: int| 0 <= j < i ==> nc[j] == o.children@[j]);
        assert(forall|j: int| i <= j < nc.len() ==> nc[j] == o.children@[j + 1]);
        lemma_find_index(nc, nm);
        let r = find_index(nc, nm);
        if r != -1 {
            let r0 = if r < i {
                r
            } else {
                r + 1
            };
            assert(fof_name(o.children@[r0]) == nm);
            assert(fof_name(o.children@[i]) == nm);
            assert(r0 != i);
        }
    } else {
        reveal_with_fuel(after_delete, 2);
        assert(path[0] == c[0] && path.len() == c.len() + 1);
        let oc = o.children@;
        let nc = n.children@;
        let i = find_index(oc, c[0]);
        assert forall|j: int| 0 <= j < oc.len() implies fof_name(#[trigger] oc[j]) == fof_name(
            #[trigger] nc[j],
        ) by {
            if j != i {
                assert(nc[j] == oc[j]);
            }
        }
        lemma_find_index_same_names(oc, nc, c[0]);
        match (oc[i], nc[i]) {
            (FileOrFolder::Folder(ocf), FileOrFolder::Folder(ncf)) => {
                lemma_wf_children_index(oc, oc.len() as int, i);
                assert(path.skip(1) =~= c.skip(1).push(nm));
                lemma_deleted_name_absent(ocf, ncf, c.skip(1), nm);
            },
            _ => {},
        }
    }
}

pub proof fn lemma_find_index_same_names(s1: Seq<FileOrFolder>, s2: Seq<FileOrFolder>, name: Seq<u8>)
    requires
        s1.len() == s2.len(),
        forall|j: int| 0 <= j < s1.len() ==> fof_name(#[trigger] s1[j]) == fof_name(#[trigger] s2[j]),
    ensures
        find_index(s1, name) == find_index(s2, name),
    decreases s1.len(),
{
    if s1.len() > 0 && fof_name(s1[0]) != name {
        assert(forall|j: int|
            0 <= j < s1.skip(1).len() ==> fof_name(#[trigger] s1.skip(1)[j]) == fof_name(s1[j + 1]));
        assert(forall|j: int|
            0 <= j < s2.skip(1).len() ==> fof_name(#[trigger] s2.skip(1)[j]) == fof_name(s2[j + 1]));
        lemma_find_index_same_names(s1.skip(1), s2.skip(1), name);
    }
}

/// An insertion never makes a folder that was reachable unreachable: the
/// cursor keeps resolving while the scan fills the tree in.
pub proof fn lemma_add_preserves_folder_at(
    o: Folder,
    n: Folder,
    path: Seq<Seq<u8>>,
    size: u64,
    is_dir: bool,
    c: Seq<Seq<u8>>,
)
    requires
        after_add(o, n, path, size, is_dir),
        folder_at(o, c) is Some,
    ensures
        folder_at(n, c) is Some,
    decreases c.len(),
{
    if c.len() > 0 {
        let oc = o.children@;
        let nc = n.children@;
        let i0 = find_index(oc, c[0]);
        lemma_find_index(oc, c[0]);
        lemma_find_index(nc, c[0]);
        let i = find_index(oc, path[0]);
        if i == -1 {
            assert(forall|j: int| 0 <= j < oc.len() ==> nc[j] == #[trigger] oc[j]) by {
                assert(forall|j: int|
                    0 <= j < oc.len() ==> nc.take(oc.len() as int)[j] == #[trigger] nc[j]);
            }
            let r = find_index(nc, c[0]);
            assert(fof_name(nc[i0]) == c[0]);
            assert(r != -1);
            if r < i0 {
                assert(fof_name(nc[r]) == c[0]);
                assert(nc[r] == oc[r]);
                assert(false);
            }
            if r > i0 {
                assert(false);
            }
            assert(nc[i0] == oc[i0]);
        } else {
            reveal_with_fuel(after_add, 2);
            assert forall|j: int| 0 <= j < oc.len() implies fof_name(#[trigger] oc[j]) == fof_name(
                #[trigger] nc[j],
            ) by {
                if j != i {
                    assert(nc[j] == oc[j]);
                }
            }
            lemma_find_index_same_names(oc, nc, c[0]);
            if i0 == i {
                match (oc[i], nc[i]) {
                    (FileOrFolder::Folder(ocf), FileOrFolder::Folder(ncf)) => {
                        lemma_add_preserves_folder_at(ocf, ncf, path.skip(1), size, is_dir, c.skip(1));
                    },
                    _ => {},
                }
            } else {
                assert(nc[i0] == oc[i0]);
            }
        }
    }
}

/// A deletion one level below the cursor leaves the cursor's folder in
/// place.
pub proof fn lemma_delete_in_cursor(o: Folder, n: Folder, c: Seq<Seq<u8>>, nm: Seq<u8>)
    requires
        after_delete(o, n, c.push(nm)),
    ensures
        folder_at(n, c) is Some <== folder_at(o, c) is Some,
    decreases c.len(),
{
    let path = c.push(nm);
    if c.len() > 0 && folder_at(o, c) is Some {
        let oc = o.children@;
        let nc = n.children@;
        assert(path[0] == c[0]);
        assert(path.len() == c.len() + 1);
        let i = find_index(oc, c[0]);
        lemma_find_index(oc, c[0]);
        reveal_with_fuel(after_delete, 2);
        assert forall|j: int| 0 <= j < oc.len() implies fof_name(#[trigger] oc[j]) == fof_name(
            #[trigger] nc[j],
        ) by {
            if j != i {
                assert(nc[j] == oc[j]);
            }
        }
        lemma_find_index_same_names(oc, nc, c[0]);
        match (oc[i], nc[i]) {
            (FileOrFolder::Folder(ocf), FileOrFolder::Folder(ncf)) => {
                assert(path.skip(1) =~= c.skip(1).push(nm));
                lemma_delete_in_cursor(ocf, ncf, c.skip(1), nm);
            },
            _ => {},
        }
    }
}

/// Leaving a folder can only land somewhere that exists: a cursor's prefix
/// resolves whenever the cursor does.
pub proof fn lemma_folder_at_drop_last(f: Folder, c: Seq<Seq<u8>>)
    requires
        c.len() > 0,
        folder_at(f, c) is Some,
    ensures
        folder_at(f, c.drop_last()) is Some,
    decreases c.len(),
{
    if c.len() == 1 {
        assert(c.drop_last() =~= Seq::<Seq<u8>>::empty());
    } else {
        let i = find_index(f.children@, c[0]);
        match f.children@[i] {
            FileOrFolder::Folder(child) => {
                lemma_folder_at_drop_last(child, c.skip(1));
                assert(c.drop_last()[0] == c[0]);
                assert(c.drop_last().skip(1) =~= c.skip(1).drop_last());
            },
            _ => {},
        }
    }
}

/// Entering a folder resolves through one more lookup.
pub proof fn lemma_folder_at_snoc(f: Folder, c: Seq<Seq<u8>>, nm: Seq<u8>)
    ensures
        folder_at(f, c.push(nm)) == (match folder_at(f, c) {
            Some(g) => match lookup(g.children@, nm) {
                Some(FileOrFolder::Folder(child)) => Some(child),
                _ => None,
            },
            None => None,
        }),
    decreases c.len(),
{
    reveal_with_fuel(folder_at, 3);
    let path = c.push(nm);
    if c.len() == 0 {
        assert(path[0] == nm);
        assert(path.len() == 1);
        assert(path.skip(1) =~= Seq::<Seq<u8>>::empty());
    } else {
        assert(path[0] == c[0]);
        let i = find_index(f.children@, c[0]);
        if i != -1 {
            match f.children@[i] {
                FileOrFolder::Folder(child) => {
                    assert(path.skip(1) =~= c.skip(1).push(nm));
                    lemma_folder_at_snoc(child, c.skip(1), nm);
                },
                _ => {},
            }
        }
    }
}

/// What the user asked to delete: the scan root, the path from the tree
/// root to the entry, and the entry's identifying metadata, snapshotted at
/// prompt time.
pub struct FileToDelete {
    pub path_in_filesystem: Vec<Vec<u8>>,
    pub path_to_file: Vec<Vec<u8>>,
    pub file_metadata: FileMetadata,
}

/// The name and size a tile or a pending deletion carries for one entry.
pub struct FileMetadata {
    pub name: Vec<u8>,
    pub size: u64,
}

impl FileToDelete {
    /// The absolute path of the entry: the scan root followed by the path
    /// inside the tree.
    pub fn full_path(&self) -> (r: Vec<Vec<u8>>)
        ensures
            r.deep_view() == self.path_in_filesystem.deep_view() + self.path_to_file.deep_view(),
    {
        let ghost base = self.path_in_filesystem.deep_view();
        let ghost tail = self.path_to_file.deep_view();
        let mut r = clone_path(&self.path_in_filesystem);
        let mut i: usize = 0;
        while i < self.path_to_file.len()
            invariant
                i <= tail.len(),
                tail == self.path_to_file.deep_view(),
                base == self.path_in_filesystem.deep_view(),
                r@.len() == base.len() + i,
                forall|j: int| 0 <= j < base.len() ==> (#[trigger] r@[j])@ == base[j],
                forall|j: int|
                    base.len() <= j < base.len() + i ==> (#[trigger] r@[j])@ == tail[j - base.len()],
            decreases tail.len() - i,
        {
            let c = clone_bytes(&self.path_to_file[i]);
            proof {
                assert(c@ =~= tail[i as int]);
            }
            r.push(c);
            i += 1;
        }
        proof {
            assert forall|j: int| 0 <= j < base.len() + tail.len() implies r.deep_view()[j] == (base
                + tail)[j] by {
                if j < base.len() {
                    assert((base + tail)[j] == base[j]);
                } else {
                    assert((base + tail)[j] == tail[j - base.len()]);
                }
                assert(r.deep_view()[j] =~= r@[j]@);
            }
            assert(r.deep_view() =~= base + tail);
        }
        r
    }
}

/// The in-memory mirror of the scanned subtree, the cursor naming the
/// directory on display, and the process-lifetime counters.
pub struct FileTree {
    pub root: Folder,
    pub current_folder_names: Vec<Vec<u8>>,
    pub path_in_filesystem: Vec<Vec<u8>>,
    pub failed_to_read: u64,
    pub space_freed: u64,
}

impl FileTree {
    /// Every aggregate in the tree is exact and the cursor points at a
    /// folder that exists.
    pub open spec fn inv(&self) -> bool {
        &&& wf_folder(self.root)
        &&& folder_at(self.root, self.cursor()) is Some
    }

    pub open spec fn cursor(&self) -> Seq<Seq<u8>> {
        self.current_folder_names.deep_view()
    }

    pub open spec fn current_folder_spec(&self) -> Folder {
        folder_at(self.root, self.cursor()).unwrap()
    }

    pub fn new(path_in_filesystem: Vec<Vec<u8>>) -> (r: Self)
        ensures
            r.inv(),
            r.root.children@.len() == 0,
            r.root.size == 0,
            r.root.descendant_count == 0,
            r.cursor() == Seq::<Seq<u8>>::empty(),
            r.path_in_filesystem == path_in_filesystem,
            r.failed_to_read == 0,
            r.space_freed == 0,
    {
        let r = FileTree {
            root: Folder { name: Vec::new(), size: 0, descendant_count: 0, children: Vec::new() },
            current_folder_names: Vec::new(),
            path_in_filesystem,
            failed_to_read: 0,
            space_freed: 0,
        };
        proof {
            assert(r.cursor() =~= Seq::<Seq<u8>>::empty());
            assert(sum_sizes(r.root.children@) == 0);
            assert(sum_counts(r.root.children@) == 0);
        }
        r
    }

    /// The discovered entry at `path[path_length..]` may be inserted, and
    /// its bookkeeping cannot overflow.
    pub open spec fn add_entry_allowed(
        &self,
        size: u64,
        is_dir: bool,
        path: Seq<Seq<u8>>,
        path_length: int,
    ) -> bool {
        &&& 0 <= path_length < path.len()
        &&& can_add(self.root, path.skip(path_length))
        &&& self.root.size + entry_size(size, is_dir) <= u64::MAX
        &&& self.root.descendant_count + path.len() - path_length <= u64::MAX
    }

    /// Insert one discovered entry, creating missing intermediate folders
    /// and keeping every ancestor's aggregates exact.
    pub fn add_entry(&mut self, size: u64, is_dir: bool, path: &Vec<Vec<u8>>, path_length: usize)
        requires
            old(self).inv(),
            old(self).add_entry_allowed(size, is_dir, path.deep_view(), path_length as int),
        ensures
            final(self).inv(),
            after_add(
                old(self).root,
                final(self).root,
                path.deep_view().skip(path_length as int),
                size,
                is_dir,
            ),
            final(self).current_folder_names == old(self).current_folder_names,
            final(self).path_in_filesystem == old(self).path_in_filesystem,
            final(self).failed_to_read == old(self).failed_to_read,
            final(self).space_freed == old(self).space_freed,
    {
        self.root.add_at(path, path_length, size, is_dir);
        proof {
            lemma_add_preserves_folder_at(
                old(self).root,
                self.root,
                path.deep_view().skip(path_length as int),
                size,
                is_dir,
                self.cursor(),
            );
        }
    }

    /// Whether `add_entry` accepts the entry as the tree stands: the
    /// scanner is trusted to discover each path once, and this re-checks it.
    pub fn can_add_entry(
        &self,
        size: u64,
        is_dir: bool,
        path: &Vec<Vec<u8>>,
        path_length: usize,
    ) -> (r: bool)
        ensures
            r == self.add_entry_allowed(size, is_dir, path.deep_view(), path_length as int),
    {
        if path_length >= path.len() {
            return false;
        }
        let entry: u64 = if is_dir {
            0
        } else {
            size
        };
        if self.root.size > u64::MAX - entry {
            return false;
        }
        let new_nodes = (path.len() - path_length) as u64;
        if self.root.descendant_count > u64::MAX - new_nodes {
            return false;
        }
        can_add_at(&self.root, path, path_length)
    }

    /// The folder the cursor points at: a borrowed view, not a copy.
    pub fn get_current_folder(&self) -> (r: &Folder)
        requires
            self.inv(),
        ensures
            Some(*r) == folder_at(self.root, self.cursor()),
    {
        proof {
            assert(self.cursor().skip(0) =~= self.cursor());
        }
        descend(&self.root, &self.current_folder_names, 0)
    }

    /// Look `name` up in the folder on display.
    pub fn item_in_current_folder(&self, name: &Vec<u8>) -> (r: Option<&FileOrFolder>)
        requires
            self.inv(),
        ensures
            r == (match lookup(self.current_folder_spec().children@, name@) {
                Some(_) => Some(
                    &self.current_folder_spec().children@[find_index(
                        self.current_folder_spec().children@,
                        name@,
                    )],
                ),
                None => None::<&FileOrFolder>,
            }),
    {
        let folder = self.get_current_folder();
        proof {
            lemma_find_index(folder.children@, name@);
        }
        match find_child(&folder.children, name) {
            Some(i) => Some(&folder.children[i]),
            None => None,
        }
    }

    /// Push `name` onto the cursor if it names a folder on display;
    /// otherwise leave the cursor alone.
    pub fn enter_folder(&mut self, name: &Vec<u8>)
        requires
            old(self).inv(),
        ensures
            final(self).inv(),
            final(self).root == old(self).root,
            final(self).path_in_filesystem == old(self).path_in_filesystem,
            final(self).failed_to_read == old(self).failed_to_read,
            final(self).space_freed == old(self).space_freed,
            match lookup(old(self).current_folder_spec().children@, name@) {
                Some(FileOrFolder::Folder(_)) => final(self).cursor() == old(self).cursor().push(
                    name@,
                ),
                _ => final(self).cursor() == old(self).cursor(),
            },
    {
        let found = self.item_in_current_folder(name);
        let is_folder = match found {
            Some(FileOrFolder::Folder(_)) => true,
            _ => false,
        };
        if is_folder {
            let c = clone_bytes(name);
            self.current_folder_names.push(c);
            proof {
                assert(self.cursor() =~~= old(self).cursor().push(name@));
                lemma_folder_at_snoc(self.root, old(self).cursor(), name@);
            }
        }
    }

    /// Pop the last cursor component; report whether there was one to pop.
    pub fn leave_folder(&mut self) -> (r: bool)
        requires
            old(self).inv(),
        ensures
            final(self).inv(),
            final(self).root == old(self).root,
            final(self).path_in_filesystem == old(self).path_in_filesystem,
            final(self).failed_to_read == old(self).failed_to_read,
            final(self).space_freed == old(self).space_freed,
            r == (old(self).cursor().len() > 0),
            r ==> final(self).cursor() == old(self).cursor().drop_last(),
            !r ==> final(self).cursor() == old(self).cursor(),
    {
        if self.current_folder_names.len() == 0 {
            false
        } else {
            self.current_folder_names.pop();
            proof {
                assert(self.cursor() =~~= old(self).cursor().drop_last());
                lemma_folder_at_drop_last(self.root, old(self).cursor());
            }
            true
        }
    }

    /// The pending deletion names an entry one level below the cursor, as
    /// every deletion prompted from the board does.
    pub open spec fn delete_allowed(&self, path: Seq<Seq<u8>>) -> bool {
        &&& can_delete(self.root, path)
        &&& path.len() == self.cursor().len() + 1
        &&& path.take(self.cursor().len() as int) == self.cursor()
    }

    /// Remove the entry the snapshot names, shrinking every ancestor's
    /// aggregates by exactly what the entry held.
    pub fn delete_file(&mut self, file_to_delete: &FileToDelete)
        requires
            old(self).inv(),
            old(self).delete_allowed(file_to_delete.path_to_file.deep_view()),
        ensures
            final(self).inv(),
            after_delete(
                old(self).root,
                final(self).root,
                file_to_delete.path_to_file.deep_view(),
            ),
            final(self).current_folder_names == old(self).current_folder_names,
            final(self).path_in_filesystem == old(self).path_in_filesystem,
            final(self).failed_to_read == old(self).failed_to_read,
            final(self).space_freed == old(self).space_freed,
    {
        proof {
            assert(file_to_delete.path_to_file.deep_view().skip(0) =~= file_to_delete.path_to_file.deep_view());
        }
        self.root.delete_at(&file_to_delete.path_to_file, 0);
        proof {
            let path = file_to_delete.path_to_file.deep_view();
            assert(path =~= self.cursor().push(path.last()));
            lemma_delete_in_cursor(old(self).root, self.root, self.cursor(), path.last());
        }
    }

    /// Whether `delete_file` accepts the snapshot as the tree stands.
    pub fn can_delete_file(&self, file_to_delete: &FileToDelete) -> (r: bool)
        requires
            self.inv(),
        ensures
            r == self.delete_allowed(file_to_delete.path_to_file.deep_view()),
    {
        let path = &file_to_delete.path_to_file;
        if path.len() == 0 || path.len() - 1 != self.current_folder_names.len() {
            return false;
        }
        let mut i: usize = 0;
        while i < self.current_folder_names.len()
            invariant
                i <= self.current_folder_names@.len(),
                *path == file_to_delete.path_to_file,
                path@.len() == self.current_folder_names@.len() + 1,
                forall|j: int| 0 <= j < i ==> path.deep_view()[j] == self.cursor()[j],
            decreases self.current_folder_names@.len() - i,
        {
            if !bytes_eq(&path[i], &self.current_folder_names[i]) {
                proof {
                    assert(path.deep_view()[i as int] =~= path@[i as int]@);
                    assert(self.cursor()[i as int] =~= self.current_folder_names@[i as int]@);
                    assert(path.deep_view().take(self.cursor().len() as int)[i as int]
                        == path.deep_view()[i as int]);
                    assert(path.deep_view()[i as int] != self.cursor()[i as int]);
                    assert(path.deep_view().take(self.cursor().len() as int) != self.cursor());
                }
                return false;
            }
            proof {
                assert(path.deep_view()[i as int] =~= path@[i as int]@);
                assert(self.cursor()[i as int] =~= self.current_folder_names@[i as int]@);
            }
            i += 1;
        }
        proof {
            assert(path.deep_view().take(self.cursor().len() as int) =~= self.cursor());
            assert(path.deep_view().skip(0) =~= path.deep_view());
        }
        can_delete_at(&self.root, path, 0)
    }
}

/// Resolve the cursor suffix `cursor[depth..]` against `f`.
fn descend<'a>(f: &'a Folder, cursor: &Vec<Vec<u8>>, depth: usize) -> (r: &'a Folder)
    requires
        depth <= cursor@.len(),
        folder_at(*f, cursor.deep_view().skip(depth as int)) is Some,
    ensures
        Some(*r) == folder_at(*f, cursor.deep_view().skip(depth as int)),
    decreases cursor@.len() - depth,
{
    let ghost rel = cursor.deep_view().skip(depth as int);
    if depth == cursor.len() {
        proof {
            assert(rel =~= Seq::<Seq<u8>>::empty());
        }
        f
    } else {
        proof {
            assert(rel[0] =~= cursor@[depth as int]@);
            lemma_find_index(f.children@, rel[0]);
        }
        let idx = find_child(&f.children, &cursor[depth]);
        let i = match idx {
            Some(i) => i,
            None => {
                proof {
                    assert(false);
                }
                0
            },
        };
        match &f.children[i] {
            FileOrFolder::Folder(child) => {
                proof {
                    assert(rel.skip(1) =~= cursor.deep_view().skip(depth + 1 as int));
                }
                descend(child, cursor, depth + 1)
            },
            FileOrFolder::File(_) => {
                proof {
                    assert(false);
                }
                f
            },
        }
    }
}

/// Exec mirror of `can_add` from `path[depth..]`.
fn can_add_at(f: &Folder, path: &Vec<Vec<u8>>, depth: usize) -> (r: bool)
    requires
        depth <= path@.len(),
    ensures
        r == (depth < path@.len() && can_add(*f, path.deep_view().skip(depth as int))),
    decreases path@.len() - depth,
{
    if depth == path.len() {
        return false;
    }
    let ghost rel = path.deep_view().skip(depth as int);
    proof {
        assert(rel[0] =~= path@[depth as int]@);
        lemma_find_index(f.children@, rel[0]);
    }
    let idx = find_child(&f.children, &path[depth]);
    if path.len() == depth + 1 {
        idx.is_none()
    } else {
        proof {
            assert(rel.skip(1) =~= path.deep_view().skip(depth + 1 as int));
        }
        match idx {
            None => true,
            Some(i) => match &f.children[i] {
                FileOrFolder::Folder(child) => can_add_at(child, path, depth + 1),
                FileOrFolder::File(_) => false,
            },
        }
    }
}

/// Exec mirror of `can_delete` from `path[depth..]`.
fn can_delete_at(f: &Folder, path: &Vec<Vec<u8>>, depth: usize) -> (r: bool)
    requires
        depth <= path@.len(),
    ensures
        r == (depth < path@.len() && can_delete(*f, path.deep_view().skip(depth as int))),
    decreases path@.len() - depth,
{
    if depth == path.len() {
        return false;
    }
    let ghost rel = path.deep_view().skip(depth as int);
    proof {
        assert(rel[0] =~= path@[depth as int]@);
        lemma_find_index(f.children@, rel[0]);
    }
    let idx = find_child(&f.children, &path[depth]);
    match idx {
        None => false,
        Some(i) => {
            if path.len() == depth + 1 {
                true
            } else {
                proof {
                    assert(rel.skip(1) =~= path.deep_view().skip(depth + 1 as int));
                }
                match &f.children[i] {
                    FileOrFolder::Folder(child) => can_delete_at(child, path, depth + 1),
                    FileOrFolder::File(_) => false,
                }
            }
        },
    }
}

} // verus!
