//! The decisions of the directory walk: which entries are skipped, descended
//! into or collected.
use vstd::prelude::*;
use crate::directive::first_index;
use crate::text::{chars_of, occurs_at};

verus! {

/// Paths that hold this text are left out of the walk.
pub const EXCLUDED_PATH: &'static str = "vendor/bundle";

/// The extension of the files that are collected.
pub open spec fn target_extension() -> Seq<char> {
    seq!['r', 'b']
}

/// Whether `p` occurs in `s`.
pub open spec fn holds(s: Seq<char>, p: Seq<char>) -> bool {
    first_index(s, p, 0) is Some
}

/// Whether a path lies under an excluded part of the tree.
pub open spec fn excluded(path: Seq<char>) -> bool {
    holds(path, EXCLUDED_PATH@)
}

/// The position of the last `.` in `s`, or -1 where there is none.
pub open spec fn last_dot(s: Seq<char>) -> int
    decreases s.len(),
{
    if s.len() == 0 {
        -1
    } else if s.last() == '.' {
        s.len() - 1
    } else {
        last_dot(s.drop_last())
    }
}

/// The extension of a file name, as `Path::extension` gives it: what follows
/// the last `.`, where that dot is not the name's first character; none for
/// `..`.
pub open spec fn extension_of(name: Seq<char>) -> Option<Seq<char>> {
    let d = last_dot(name);
    if name == seq!['.', '.'] || d <= 0 {
        None
    } else {
        Some(name.skip(d + 1))
    }
}

/// Whether a file of this name is one of the target files.
pub open spec fn is_target(name: Seq<char>) -> bool {
    extension_of(name) == Some(target_extension())
}

/// Tests whether `p` occurs in `v`.
pub fn contains_chars(v: &Vec<char>, p: &Vec<char>) -> (r: bool)
    ensures
        r == holds(v@, p@),
{
    if p.len() > v.len() {
        return false;
    }
    if p.len() == 0 {
        assert(v@.subrange(0, 0) =~= p@);
        return true;
    }
    let mut i: usize = 0;
    while i <= v.len() - p.len()
        invariant
            0 < p.len() <= v.len(),
            i <= v.len() - p.len() + 1,
            first_index(v@, p@, 0) == first_index(v@, p@, i as int),
        decreases v.len() - p.len() + 1 - i,
    {
        assert(v@.skip(i as int).take(p.len() as int) =~= v@.subrange(i as int, i + p.len()));
        if occurs_at(v, p, i) {
            return true;
        }
        i = i + 1;
    }
    false
}

/// Tests whether a path lies under an excluded part of the tree.
pub fn is_excluded(path: &str) -> (r: bool)
    ensures
        r == excluded(path@),
{
    contains_chars(&chars_of(path), &chars_of(EXCLUDED_PATH))
}

/// One past the position of the last `.` in `v`; zero where there is none.
fn after_last_dot(v: &Vec<char>) -> (d: usize)
    ensures
        d <= v.len(),
        last_dot(v@) == d - 1,
{
    let mut d: usize = v.len();
    assert(v@.take(v.len() as int) =~= v@);
    while d > 0 && v[d - 1] != '.'
        invariant
            d <= v.len(),
            last_dot(v@) == last_dot(v@.take(d as int)),
        decreases d,
    {
        let ghost t = v@.take(d as int);
        assert(t.drop_last() =~= v@.take(d - 1));
        assert(t.last() != '.');
        assert(last_dot(t) == last_dot(t.drop_last()));
        d = d - 1;
    }
    if d == 0 {
        assert(v@.take(0) =~= Seq::<char>::empty());
        assert(last_dot(v@.take(0)) == -1);
    } else {
        let ghost t = v@.take(d as int);
        assert(t.last() == '.');
        assert(last_dot(t) == d - 1);
    }
    d
}

/// Tests whether a file of this name is one of the target files.
pub fn has_target_extension(name: &str) -> (r: bool)
    ensures
        r == is_target(name@),
{
    let v = chars_of(name);
    let d = after_last_dot(&v);
    if d <= 1 {
        return false;
    }
    if v.len() == 2 && v[0] == '.' && v[1] == '.' {
        assert(v@ =~= seq!['.', '.']);
        return false;
    }
    assert(v@ != seq!['.', '.']);
    if v.len() - d != 2 {
        assert(v@.skip(d as int).len() != target_extension().len());
        return false;
    }
    let r = v[d] == 'r' && v[d + 1] == 'b';
    if r {
        assert(v@.skip(d as int) =~= target_extension());
    } else {
        assert(v@.skip(d as int)[0] != target_extension()[0] || v@.skip(d as int)[1]
            != target_extension()[1]);
    }
    r
}

/// What the walk does with one directory entry.
pub struct Visit {
    /// The entry is a directory to read next.
    pub descend: bool,
    /// The entry is a file to scan.
    pub collect: bool,
}

/// Decides what the walk does with the entry at `path`, whose last component
/// is `name`: nothing under an excluded path; else descend into a directory,
/// and collect a file with the target extension.
pub fn classify(path: &str, name: &str, is_dir: bool) -> (r: Visit)
    ensures
        r.descend == (!excluded(path@) && is_dir),
        r.collect == (!excluded(path@) && !is_dir && is_target(name@)),
{
    if is_excluded(path) {
        Visit { descend: false, collect: false }
    } else if is_dir {
        Visit { descend: true, collect: false }
    } else {
        Visit { descend: false, collect: has_target_extension(name) }
    }
}

/// What the walk does when a directory it took cannot be read.
pub enum ReadFailure {
    /// The root does not exist: the tree is empty and the walk ends with no
    /// file found.
    EmptyTree,
    /// The walk fails with the error.
    Fail,
}

/// The state of a walk: directories still to read, files found so far.
pub struct Discovery {
    pending: Vec<String>,
    found: Vec<String>,
    found_names: Ghost<Seq<Seq<char>>>,
    started: bool,
    at_root: bool,
}

impl Discovery {
    /// No file found is under an excluded path, and each was met under a name
    /// with the target extension.
    pub closed spec fn wf(&self) -> bool {
        &&& self.found_names@.len() == self.found.len()
        &&& forall|i: int|
            0 <= i < self.found.len() ==> !excluded(#[trigger] self.found@[i]@) && is_target(
                self.found_names@[i],
            )
    }

    /// The paths found so far.
    pub closed spec fn found_paths(&self) -> Seq<Seq<char>> {
        self.found@.map_values(|s: String| s@)
    }

    /// The directories still to be read; the last is read next.
    pub closed spec fn pending_dirs(&self) -> Seq<Seq<char>> {
        self.pending@.map_values(|s: String| s@)
    }

    /// Whether some directory has been taken.
    pub closed spec fn started(&self) -> bool {
        self.started
    }

    /// Whether the directory taken last is the root.
    pub closed spec fn reading_root(&self) -> bool {
        self.at_root
    }

    /// A walk that starts at `root`.
    pub fn new(root: String) -> (r: Discovery)
        ensures
            r.wf(),
            r.found_paths() == Seq::<Seq<char>>::empty(),
            r.pending_dirs() == seq![root@],
            !r.started(),
            !r.reading_root(),
    {
        let r = Discovery {
            pending: vec![root],
            found: Vec::new(),
            found_names: Ghost(Seq::empty()),
            started: false,
            at_root: false,
        };
        assert(r.found_paths() =~= Seq::<Seq<char>>::empty());
        assert(r.pending_dirs() =~= seq![r.pending@[0]@]);
        r
    }

    /// Takes the next directory to read, if any is left; the first one taken
    /// is the root.
    pub fn next_dir(&mut self) -> (r: Option<String>)
        requires
            old(self).wf(),
        ensures
            final(self).wf(),
            final(self).found_paths() == old(self).found_paths(),
            (r is None) == (old(self).pending_dirs().len() == 0),
            r is None ==> final(self).pending_dirs() == old(self).pending_dirs(),
            r matches Some(d) ==> {
                &&& d@ == old(self).pending_dirs().last()
                &&& final(self).pending_dirs() == old(self).pending_dirs().drop_last()
                &&& final(self).started()
                &&& final(self).reading_root() == (old(self).pending_dirs() == seq![d@]
                    && !old(self).started())
            },
            r is None ==> final(self).started() == old(self).started() && final(self).reading_root()
                == old(self).reading_root(),
    {
        let ghost p0 = self.pending_dirs();
        let r = self.pending.pop();
        match &r {
            Some(d) => {
                self.at_root = !self.started && self.pending.len() == 0;
                self.started = true;
                assert(self.pending_dirs() =~= p0.drop_last());
                proof {
                    if self.at_root {
                        assert(p0 =~= seq![d@]);
                    }
                    if p0 == seq![d@] {
                        assert(p0.len() == 1);
                    }
                }
            },
            None => {},
        }
        r
    }

    /// Decides what follows a failed read of the directory taken last: a root
    /// that does not exist is an empty tree; any other failure ends the walk
    /// with the error.
    pub fn on_read_failure(&self, not_found: bool) -> (r: ReadFailure)
        ensures
            (r is EmptyTree) == (not_found && self.reading_root()),
    {
        if not_found && self.at_root {
            ReadFailure::EmptyTree
        } else {
            ReadFailure::Fail
        }
    }

    /// Records one entry of a directory that was read: queued where it is to
    /// be descended into, kept where it is to be collected.
    pub fn visit(&mut self, path: String, name: &str, is_dir: bool)
        requires
            old(self).wf(),
        ensures
            final(self).wf(),
            final(self).found_paths() == if !excluded(path@) && !is_dir && is_target(name@) {
                old(self).found_paths().push(path@)
            } else {
                old(self).found_paths()
            },
            final(self).pending_dirs() == if !excluded(path@) && is_dir {
                old(self).pending_dirs().push(path@)
            } else {
                old(self).pending_dirs()
            },
            final(self).started() == old(self).started(),
            final(self).reading_root() == old(self).reading_root(),
    {
        let v = classify(path.as_str(), name, is_dir);
        let ghost p = path@;
        let ghost f0 = self.found_paths();
        let ghost q0 = self.pending_dirs();
        if v.descend {
            self.pending.push(path);
            assert(self.pending_dirs() =~= q0.push(p));
            assert(self.found_paths() =~= f0);
        } else if v.collect {
            self.found.push(path);
            self.found_names = Ghost(self.found_names@.push(name@));
            assert(self.found_paths() =~= f0.push(p));
            assert forall|i: int| 0 <= i < self.found.len() implies !excluded(
                #[trigger] self.found@[i]@,
            ) && is_target(self.found_names@[i]) by {
                if i < self.found.len() - 1 {
                    assert(self.found@[i] == old(self).found@[i]);
                    assert(self.found_names@[i] == old(self).found_names@[i]);
                }
            }
            assert(self.pending_dirs() =~= q0);
        } else {
            assert(self.found_paths() =~= f0);
            assert(self.pending_dirs() =~= q0);
        }
    }

    /// The files found, in the order the walk met them.
    pub fn into_found(self) -> (r: Vec<String>)
        requires
            self.wf(),
        ensures
            r@.map_values(|s: String| s@) == self.found_paths(),
            forall|i: int| 0 <= i < r.len() ==> !excluded(#[trigger] r@[i]@),
    {
        self.found
    }
}

} // verus!
