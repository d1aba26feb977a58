//! An in-memory image of the backup area: a flat collection of files and
//! directories keyed by path, with a write counter that stamps modification
//! times.  The snapshot engine works over this image; an unverified shell
//! mirrors it onto the real filesystem.

use vstd::prelude::*;

use crate::text::str_eq;

verus! {

/// Whether a path names an ordinary file or a directory.
#[derive(Debug, Clone, Copy, PartialEq, Eq, Structural)]
pub enum FileKind {
    Regular,
    Directory,
}

/// One entry of the disk image.
#[derive(Debug)]
pub struct DiskFile {
    pub path: String,
    pub kind: FileKind,
    pub data: Vec<u8>,
    pub mtime: u64,
}

/// The mathematical content of one entry: its kind, bytes and stamp.
pub struct FileView {
    pub kind: FileKind,
    pub data: Seq<u8>,
    pub mtime: nat,
}

impl View for DiskFile {
    type V = FileView;

    open spec fn view(&self) -> FileView {
        FileView { kind: self.kind, data: self.data@, mtime: self.mtime as nat }
    }
}

/// The entries folded into a map from path to content; a later entry with
/// the same path would win, but well-formed disks have distinct paths.
pub open spec fn seq_to_map(s: Seq<DiskFile>) -> Map<Seq<char>, FileView>
    decreases s.len(),
{
    if s.len() == 0 {
        Map::empty()
    } else {
        seq_to_map(s.drop_last()).insert(s.last().path@, s.last()@)
    }
}

/// The position of the last entry with path `p`, or -1.
pub open spec fn path_index(s: Seq<DiskFile>, p: Seq<char>) -> int
    decreases s.len(),
{
    if s.len() == 0 {
        -1
    } else if s.last().path@ == p {
        s.len() - 1
    } else {
        path_index(s.drop_last(), p)
    }
}

/// No two entries share a path.
pub open spec fn distinct_paths(s: Seq<DiskFile>) -> bool {
    forall|i: int, j: int| 0 <= i < j < s.len() ==> (#[trigger] s[i]).path@ != (#[trigger] s[j]).path@
}

/// How `seq_to_map` relates to the entries it was folded from.
pub proof fn lemma_seq_to_map(s: Seq<DiskFile>, p: Seq<char>)
    ensures
        seq_to_map(s).contains_key(p) <==> path_index(s, p) >= 0,
        path_index(s, p) >= 0 ==> path_index(s, p) < s.len() && s[path_index(s, p)].path@ == p
            && seq_to_map(s)[p] == s[path_index(s, p)]@,
        path_index(s, p) < 0 ==> forall|i: int| 0 <= i < s.len() ==> (#[trigger] s[i]).path@ != p,
    decreases s.len(),
{
    if s.len() > 0 {
        lemma_seq_to_map(s.drop_last(), p);
        if s.last().path@ != p {
            assert(forall|i: int|
                0 <= i < s.len() - 1 ==> #[trigger] s[i] == s.drop_last()[i]);
        }
    }
}

/// Replacing the entry that owns a path updates the map at that path.
proof fn lemma_seq_to_map_update(s: Seq<DiskFile>, i: int, f: DiskFile)
    requires
        distinct_paths(s),
        0 <= i < s.len(),
        s[i].path@ == f.path@,
    ensures
        seq_to_map(s.update(i, f)) =~= seq_to_map(s).insert(f.path@, f@),
    decreases s.len(),
{
    let t = s.update(i, f);
    if i == s.len() - 1 {
        assert(t.drop_last() =~= s.drop_last());
    } else {
        assert(t.drop_last() =~= s.drop_last().update(i, f));
        assert(t.last() == s.last());
        assert(s.drop_last()[i] == s[i]);
        assert(distinct_paths(s.drop_last())) by {
            assert(forall|a: int, b: int|
                0 <= a < b < s.len() - 1 ==> (#[trigger] s.drop_last()[a]) == s[a] && (
                #[trigger] s.drop_last()[b]) == s[b]);
        }
        lemma_seq_to_map_update(s.drop_last(), i, f);
        assert(s.last().path@ != f.path@);
    }
}

/// Appending an entry with a fresh path inserts it into the map.
proof fn lemma_seq_to_map_push(s: Seq<DiskFile>, f: DiskFile)
    ensures
        seq_to_map(s.push(f)) =~= seq_to_map(s).insert(f.path@, f@),
{
    assert(s.push(f).drop_last() =~= s);
    assert(s.push(f).last() == f);
}

/// Removing the entry that owns a path removes the path from the map.
proof fn lemma_seq_to_map_remove(s: Seq<DiskFile>, i: int)
    requires
        distinct_paths(s),
        0 <= i < s.len(),
    ensures
        seq_to_map(s.remove(i)) =~= seq_to_map(s).remove(s[i].path@),
    decreases s.len(),
{
    let t = s.remove(i);
    let p = s[i].path@;
    if i == s.len() - 1 {
        assert(t =~= s.drop_last());
        lemma_seq_to_map(s.drop_last(), p);
        if path_index(s.drop_last(), p) >= 0 {
            assert(s.drop_last()[path_index(s.drop_last(), p)] == s[path_index(
                s.drop_last(),
                p,
            )]);
            assert(false);
        }
        assert(!seq_to_map(s.drop_last()).contains_key(p));
        assert(seq_to_map(s.drop_last()).insert(p, s.last()@).remove(p) =~= seq_to_map(
            s.drop_last(),
        ));
    } else {
        assert(t.drop_last() =~= s.drop_last().remove(i));
        assert(t.last() == s.last());
        assert(s.drop_last()[i] == s[i]);
        assert(distinct_paths(s.drop_last())) by {
            assert(forall|a: int, b: int|
                0 <= a < b < s.len() - 1 ==> (#[trigger] s.drop_last()[a]) == s[a] && (
                #[trigger] s.drop_last()[b]) == s[b]);
        }
        lemma_seq_to_map_remove(s.drop_last(), i);
        assert(s.last().path@ != p);
    }
}

/// An entry of a well-formed sequence is what the folded map holds at
/// its path.
pub proof fn lemma_entry_lookup(s: Seq<DiskFile>, i: int)
    requires
        distinct_paths(s),
        0 <= i < s.len(),
    ensures
        seq_to_map(s).contains_key(s[i].path@),
        seq_to_map(s)[s[i].path@] == s[i]@,
{
    lemma_seq_to_map(s, s[i].path@);
    let pi = path_index(s, s[i].path@);
    if pi < 0 {
        assert(s[i].path@ != s[i].path@);
    }
    if pi != i {
        assert(s[pi].path@ == s[i].path@);
        assert(false);
    }
}

/// In a well-formed image every file's stamp is below the counter.
pub proof fn lemma_contents_mtime_bound(d: Disk)
    requires
        d.wf(),
    ensures
        forall|p: Seq<char>|
            #[trigger] d.contents().contains_key(p) ==> d.contents()[p].mtime < d.clock_val(),
{
    assert forall|p: Seq<char>|
        #[trigger] d.contents().contains_key(p) implies d.contents()[p].mtime
        < d.clock_val() by {
        lemma_seq_to_map(d.entries(), p);
        let pi = path_index(d.entries(), p);
        assert(d.entries()[pi].mtime < d.clock_val());
    }
}

/// In a well-formed image, distinct files carry distinct stamps.
pub proof fn lemma_contents_mtime_distinct(d: Disk)
    requires
        d.wf(),
    ensures
        forall|p: Seq<char>, q: Seq<char>|
            #[trigger] d.contents().contains_key(p) && #[trigger] d.contents().contains_key(q) && p
                != q ==> d.contents()[p].mtime != d.contents()[q].mtime,
{
    assert forall|p: Seq<char>, q: Seq<char>|
        #[trigger] d.contents().contains_key(p) && #[trigger] d.contents().contains_key(q) && p
        != q implies d.contents()[p].mtime != d.contents()[q].mtime by {
        lemma_seq_to_map(d.entries(), p);
        lemma_seq_to_map(d.entries(), q);
        let pi = path_index(d.entries(), p);
        let qi = path_index(d.entries(), q);
        assert(d.entries()[pi].path@ == p && d.entries()[qi].path@ == q);
        assert(pi != qi);
        if pi < qi {
            assert(d.entries()[pi].mtime != d.entries()[qi].mtime);
        } else {
            assert(d.entries()[qi].mtime != d.entries()[pi].mtime);
        }
    }
}

/// The folded map's domain is finite.
pub proof fn lemma_seq_to_map_finite(s: Seq<DiskFile>)
    ensures
        seq_to_map(s).dom().finite(),
    decreases s.len(),
{
    if s.len() > 0 {
        lemma_seq_to_map_finite(s.drop_last());
    }
}

/// The in-memory disk image.
pub struct Disk {
    files: Vec<DiskFile>,
    clock: u64,
}

impl Disk {
    /// The entries in walk order.
    pub closed spec fn entries(self) -> Seq<DiskFile> {
        self.files@
    }

    /// The write counter; every entry's stamp is below it.
    pub closed spec fn clock_val(self) -> nat {
        self.clock as nat
    }

    /// The image as a map from path to content.
    pub open spec fn contents(self) -> Map<Seq<char>, FileView> {
        seq_to_map(self.entries())
    }

    /// Well-formedness: paths are distinct, and stamps are distinct and
    /// below the write counter.
    pub open spec fn wf(self) -> bool {
        &&& self.contents().dom().finite()
        &&& distinct_paths(self.entries())
        &&& forall|i: int|
            0 <= i < self.entries().len() ==> (#[trigger] self.entries()[i]).mtime
                < self.clock_val()
        &&& forall|i: int, j: int|
            0 <= i < j < self.entries().len() ==> (#[trigger] self.entries()[i]).mtime != (
            #[trigger] self.entries()[j]).mtime
    }

    /// An empty image.
    pub fn empty() -> (d: Disk)
        ensures
            d.wf(),
            d.contents() == Map::<Seq<char>, FileView>::empty(),
            d.entries().len() == 0,
            d.clock_val() == 0,
    {
        Disk { files: Vec::new(), clock: 0 }
    }

    /// How many entries the image has.
    pub fn file_count(&self) -> (n: usize)
        ensures
            n == self.entries().len(),
    {
        self.files.len()
    }

    /// The entry at position `i` of the walk order.
    pub fn file_at(&self, i: usize) -> (f: &DiskFile)
        requires
            i < self.entries().len(),
        ensures
            *f == self.entries()[i as int],
    {
        &self.files[i]
    }

    /// Looks a path up in the image.
    pub fn lookup(&self, path: &str) -> (r: Option<&DiskFile>)
        requires
            self.wf(),
        ensures
            match r {
                Some(f) => self.contents().contains_key(path@) && f@ == self.contents()[path@]
                    && f.path@ == path@,
                None => !self.contents().contains_key(path@),
            },
    {
        let n = self.files.len();
        let mut i: usize = 0;
        while i < n
            invariant
                self.wf(),
                n == self.entries().len(),
                i <= n,
                forall|j: int| 0 <= j < i ==> (#[trigger] self.entries()[j]).path@ != path@,
            decreases n - i,
        {
            if str_eq(self.files[i].path.as_str(), path) {
                proof {
                    lemma_seq_to_map(self.entries(), path@);
                    let pi = path_index(self.entries(), path@);
                    assert(pi == i);
                }
                return Some(&self.files[i]);
            }
            i += 1;
        }
        proof {
            lemma_seq_to_map(self.entries(), path@);
            let pi = path_index(self.entries(), path@);
            if pi >= 0 {
                assert(self.entries()[pi].path@ == path@);
                assert(false);
            }
        }
        None
    }

    /// Writes an ordinary file: replaces the entry at `path` or appends a
    /// new one, stamping it with the current counter.
    pub fn write_file(&mut self, path: &str, data: Vec<u8>)
        requires
            old(self).wf(),
            old(self).clock_val() < u64::MAX as nat,
        ensures
            final(self).wf(),
            final(self).contents() == old(self).contents().insert(
                path@,
                (FileView { kind: FileKind::Regular, data: data@, mtime: old(self).clock_val() }),
            ),
            final(self).clock_val() == old(self).clock_val() + 1,
    {
        let f = DiskFile {
            path: path.to_owned(),
            kind: FileKind::Regular,
            data,
            mtime: self.clock,
        };
        self.put(f);
    }

    /// Ensures a directory entry exists at `path`; an existing entry of
    /// either kind is left alone.
    pub fn make_dir(&mut self, path: &str)
        requires
            old(self).wf(),
            old(self).clock_val() < u64::MAX as nat,
        ensures
            final(self).wf(),
            old(self).contents().contains_key(path@) ==> final(self).contents()
                == old(self).contents() && final(self).clock_val() == old(self).clock_val()
                && final(self).entries() == old(self).entries(),
            !old(self).contents().contains_key(path@) ==> final(self).contents()
                == old(self).contents().insert(
                path@,
                (FileView {
                    kind: FileKind::Directory,
                    data: Seq::empty(),
                    mtime: old(self).clock_val(),
                }),
            ) && final(self).clock_val() == old(self).clock_val() + 1,
    {
        let present = match self.lookup(path) {
            Some(_) => true,
            None => false,
        };
        if !present {
            let f = DiskFile {
                path: path.to_owned(),
                kind: FileKind::Directory,
                data: Vec::new(),
                mtime: self.clock,
            };
            self.put(f);
        }
    }

    /// Inserts or replaces the entry for `f.path`.
    fn put(&mut self, f: DiskFile)
        requires
            old(self).wf(),
            old(self).clock_val() < u64::MAX as nat,
            f.mtime == old(self).clock,
        ensures
            final(self).wf(),
            final(self).contents() == old(self).contents().insert(f.path@, f@),
            final(self).clock_val() == old(self).clock_val() + 1,
    {
        let n = self.files.len();
        let mut i: usize = 0;
        let mut slot: Option<usize> = None;
        while i < n
            invariant
                self == old(self),
                n == self.entries().len(),
                i <= n,
                match slot {
                    Some(k) => k < i && self.entries()[k as int].path@ == f.path@,
                    None => forall|j: int|
                        0 <= j < i ==> (#[trigger] self.entries()[j]).path@ != f.path@,
                },
            decreases n - i,
        {
            if slot.is_none() && str_eq(self.files[i].path.as_str(), f.path.as_str()) {
                slot = Some(i);
            }
            i += 1;
        }
        let ghost s0 = self.entries();
        match slot {
            Some(k) => {
                proof {
                    lemma_seq_to_map_update(s0, k as int, f);
                }
                self.files[k] = f;
            },
            None => {
                proof {
                    lemma_seq_to_map_push(s0, f);
                }
                self.files.push(f);
            },
        }
        self.clock = self.clock + 1;
    }

    /// Removes the entry at `path`, if any.
    pub fn remove_file(&mut self, path: &str)
        requires
            old(self).wf(),
        ensures
            final(self).wf(),
            final(self).contents() == old(self).contents().remove(path@),
            final(self).clock_val() == old(self).clock_val(),
    {
        let n = self.files.len();
        let mut i: usize = 0;
        while i < n
            invariant
                self == old(self),
                self.wf(),
                n == self.entries().len(),
                i <= n,
                forall|j: int| 0 <= j < i ==> (#[trigger] self.entries()[j]).path@ != path@,
            decreases n - i,
        {
            if str_eq(self.files[i].path.as_str(), path) {
                proof {
                    lemma_seq_to_map_remove(self.entries(), i as int);
                }
                self.files.remove(i);
                return ;
            }
            i += 1;
        }
        proof {
            lemma_seq_to_map(self.entries(), path@);
            let pi = path_index(self.entries(), path@);
            if pi >= 0 {
                assert(self.entries()[pi].path@ == path@);
                assert(false);
            }
            assert(old(self).contents().remove(path@) =~= old(self).contents());
        }
    }
}

} // verus!
