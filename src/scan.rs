//! Depth-first search for a file by name in a directory tree. The tree is
//! read by the caller: the scan says which directory it wants listed next and
//! is handed the listing, so every decision is made here.
use vstd::prelude::*;

verus! {

/// The directory that dependency caches live in; a scan never enters it.
pub const DEFAULT_EXCLUDED_DIR: &'static str = "node_modules";

/// One entry of a directory listing.
pub struct DirEntry {
    pub name: String,
    pub is_file: bool,
    pub is_dir: bool,
}

/// A directory being walked: its path from the root, its listing, and the
/// index of the next entry to look at.
pub struct Frame {
    pub dir: Vec<String>,
    pub entries: Vec<DirEntry>,
    pub next: usize,
}

/// What the scan asks of its caller after one step.
pub enum ScanAction {
    /// List the directory at this path (relative to the root) and hand the listing over.
    List(Vec<String>),
    /// The file at this path (relative to the root) has the name sought.
    Found(Vec<String>),
    /// Nothing to do; step again.
    Next,
    /// The whole tree has been walked without a match.
    Done,
}

pub struct DirScan {
    frames: Vec<Frame>,
    target: String,
    excluded: String,
}

/// No component of `p` is the excluded name.
pub open spec fn avoids(p: Seq<String>, excluded: Seq<char>) -> bool {
    forall|k: int| 0 <= k < p.len() ==> (#[trigger] p[k])@ != excluded
}

/// One step of the walk, from frames `old` to frames `new` with action `r`:
/// an exhausted directory is left; otherwise its next entry is taken, and is
/// the match if it is a file of the name sought, or is entered if it is a
/// directory of another name than the excluded one.
pub open spec fn step_spec(
    old: Seq<Frame>,
    new: Seq<Frame>,
    r: ScanAction,
    target: Seq<char>,
    excluded: Seq<char>,
) -> bool {
    let n = old.len();
    if n == 0 {
        new == old && r is Done
    } else {
        let top = old[n - 1];
        if top.next >= top.entries@.len() {
            new == old.drop_last() && r is Next
        } else {
            let e = top.entries@[top.next as int];
            let path = top.dir@.push(e.name);
            let advanced = new.take(n - 1) == old.take(n - 1) && new[n - 1].dir == top.dir
                && new[n - 1].entries == top.entries && new[n - 1].next == top.next + 1;
            if e.is_file && e.name@ == target {
                new.len() == n && advanced && (r matches ScanAction::Found(p) && p@ == path)
            } else if e.is_dir && e.name@ != excluded {
                new.len() == n + 1 && advanced && new[n as int].dir@ == path
                    && new[n as int].entries@.len() == 0 && new[n as int].next == 0 && (r matches ScanAction::List(p)
                    && p@ == path)
            } else {
                new.len() == n && advanced && r is Next
            }
        }
    }
}

/// A copy of `dir` with `name` added at the end.
fn child_path(dir: &Vec<String>, name: &String) -> (r: Vec<String>)
    ensures
        r@ == dir@.push(*name),
{
    let mut out: Vec<String> = Vec::new();
    let mut i: usize = 0;
    while i < dir.len()
        invariant
            i <= dir@.len(),
            out@ == dir@.take(i as int),
        decreases dir@.len() - i,
    {
        out.push(dir[i].clone());
        assert(dir@.take(i + 1) =~= dir@.take(i as int).push(dir@[i as int]));
        i = i + 1;
    }
    assert(dir@.take(dir@.len() as int) =~= dir@);
    out.push(name.clone());
    out
}

impl DirScan {
    pub closed spec fn frames(&self) -> Seq<Frame> {
        self.frames@
    }

    pub closed spec fn target(&self) -> Seq<char> {
        self.target@
    }

    pub closed spec fn excluded(&self) -> Seq<char> {
        self.excluded@
    }

    /// Every directory on the scan's stack lies outside the excluded name.
    pub open spec fn wf(&self) -> bool {
        forall|f: int| 0 <= f < self.frames().len() ==> avoids(#[trigger] self.frames()[f].dir@, self.excluded())
    }

    /// A scan for a file named `target` that skips directories named
    /// `excluded`. It starts at the root, whose listing comes first.
    pub fn new(target: String, excluded: String) -> (r: DirScan)
        ensures
            r.wf(),
            r.target() == target@,
            r.excluded() == excluded@,
            r.frames().len() == 1,
            r.frames()[0].dir@.len() == 0,
            r.frames()[0].entries@.len() == 0,
            r.frames()[0].next == 0,
    {
        let root = Frame { dir: Vec::new(), entries: Vec::new(), next: 0 };
        let mut frames: Vec<Frame> = Vec::new();
        frames.push(root);
        DirScan { frames, target, excluded }
    }

    /// Hands over the listing of the directory asked for last (the root at
    /// first); a directory that could not be read gets no call, or an empty one.
    pub fn give_listing(&mut self, entries: Vec<DirEntry>)
        requires
            old(self).wf(),
        ensures
            final(self).wf(),
            final(self).target() == old(self).target(),
            final(self).excluded() == old(self).excluded(),
            old(self).frames().len() == 0 ==> final(self).frames() == old(self).frames(),
            old(self).frames().len() > 0 ==> {
                let n = old(self).frames().len();
                &&& final(self).frames().len() == n
                &&& final(self).frames().take(n - 1) == old(self).frames().take(n - 1)
                &&& final(self).frames()[n - 1].dir == old(self).frames()[n - 1].dir
                &&& final(self).frames()[n - 1].entries == entries
                &&& final(self).frames()[n - 1].next == 0
            },
            no_pending_target(old(self).frames(), old(self).target()) && listing_lacks_target(
                entries@,
                old(self).target(),
            ) ==> no_pending_target(final(self).frames(), final(self).target()),
    {
        let n = self.frames.len();
        if n > 0 {
            let top = self.frames.pop().unwrap();
            let ghost rest = self.frames@;
            let frame = Frame { dir: top.dir, entries, next: 0 };
            self.frames.push(frame);
            assert(self.frames@.take(n - 1) =~= rest);
            assert(old(self).frames@.take(n - 1) =~= rest);
            assert forall|f: int| 0 <= f < self.frames().len() implies avoids(
                #[trigger] self.frames()[f].dir@,
                self.excluded(),
            ) by {
                assert(self.frames()[f].dir == old(self).frames()[f].dir);
            }
            proof {
                if no_pending_target(old(self).frames(), old(self).target()) && listing_lacks_target(
                    entries@,
                    old(self).target(),
                ) {
                    assert forall|f: int, k: int|
                        0 <= f < self.frames().len() && self.frames()[f].next <= k
                            < self.frames()[f].entries@.len() implies !(
                        #[trigger] self.frames()[f].entries@[k]).is_file
                        || self.frames()[f].entries@[k].name@ != self.target() by {
                        if f < n - 1 {
                            assert(self.frames()[f] == self.frames().take(n - 1)[f]);
                            assert(old(self).frames()[f] == old(self).frames().take(n - 1)[f]);
                        }
                    }
                }
            }
        }
    }

    /// Takes one step of the walk. A path that it returns never passes
    /// through a directory of the excluded name.
    pub fn step(&mut self) -> (r: ScanAction)
        requires
            old(self).wf(),
        ensures
            final(self).wf(),
            final(self).target() == old(self).target(),
            final(self).excluded() == old(self).excluded(),
            step_spec(old(self).frames(), final(self).frames(), r, old(self).target(), old(self).excluded()),
            r matches ScanAction::Found(p) ==> p@.len() >= 1 && p@.last()@ == old(self).target()
                && avoids(p@.drop_last(), old(self).excluded()),
            r matches ScanAction::List(p) ==> avoids(p@, old(self).excluded()),
    {
        let n = self.frames.len();
        if n == 0 {
            return ScanAction::Done;
        }
        proof {
            assert(avoids(old(self).frames()[n - 1].dir@, old(self).excluded()));
        }
        let top = self.frames.pop().unwrap();
        let ghost rest = self.frames@;
        assert(rest =~= old(self).frames@.drop_last());
        proof {
            assert forall|f: int| 0 <= f < rest.len() implies avoids(#[trigger] rest[f].dir@, self.excluded@) by {
                assert(rest[f] == old(self).frames()[f]);
            }
        }
        if top.next >= top.entries.len() {
            return ScanAction::Next;
        }
        let i = top.next;
        let is_file = top.entries[i].is_file;
        let is_dir = top.entries[i].is_dir;
        let path = child_path(&top.dir, &top.entries[i].name);
        let path_copy = child_path(&top.dir, &top.entries[i].name);
        let is_target = top.entries[i].name == self.target;
        let is_excluded = top.entries[i].name == self.excluded;
        let ghost top_dir = top.dir@;
        proof {
            assert(avoids(top_dir, self.excluded@));
        }
        let advanced = Frame { dir: top.dir, entries: top.entries, next: i + 1 };
        self.frames.push(advanced);
        assert(self.frames@.take(n - 1) =~= rest);
        assert(old(self).frames@.take(n - 1) =~= rest);
        let r = if is_file && is_target {
            proof {
                assert(path@.drop_last() =~= top_dir);
            }
            ScanAction::Found(path)
        } else if is_dir && !is_excluded {
            let ghost before = self.frames@;
            let listed = Frame { dir: path, entries: Vec::new(), next: 0 };
            let ghost p = listed.dir@;
            self.frames.push(listed);
            assert(self.frames@.take(n - 1) =~= rest);
            assert(self.frames@.take(n as int) =~= before);
            proof {
                assert(avoids(p, self.excluded@)) by {
                    assert forall|k: int| 0 <= k < p.len() implies (#[trigger] p[k])@ != self.excluded@ by {
                        if k < p.len() - 1 {
                            assert(p[k] == top_dir[k]);
                        }
                    }
                }
            }
            ScanAction::List(path_copy)
        } else {
            ScanAction::Next
        };
        proof {
            assert forall|f: int| 0 <= f < self.frames().len() implies avoids(
                #[trigger] self.frames()[f].dir@,
                self.excluded(),
            ) by {
                if f < n - 1 {
                    assert(self.frames@.take(n - 1)[f] == rest[f]);
                } else if f == n - 1 {
                    assert(self.frames()[f].dir@ == top_dir);
                }
            }
        }
        r
    }
}

/// No entry still to be looked at, in any directory on the stack, is a file
/// of the name sought.
pub open spec fn no_pending_target(frames: Seq<Frame>, target: Seq<char>) -> bool {
    forall|f: int, k: int|
        0 <= f < frames.len() && frames[f].next <= k < frames[f].entries@.len() ==> !(
        #[trigger] frames[f].entries@[k]).is_file || frames[f].entries@[k].name@ != target
}

/// No listing handed to the scan holds a file of the name sought.
pub open spec fn listing_lacks_target(entries: Seq<DirEntry>, target: Seq<char>) -> bool {
    forall|k: int| 0 <= k < entries.len() ==> !(#[trigger] entries[k]).is_file || entries[k].name@ != target
}

/// Where no entry to be looked at is a file of the name sought, a step does
/// not report a match, and afterwards still none is; so in a tree that holds
/// no such file outside excluded directories, the scan never reports one.
pub proof fn lemma_step_without_target(
    old: Seq<Frame>,
    new: Seq<Frame>,
    r: ScanAction,
    target: Seq<char>,
    excluded: Seq<char>,
)
    requires
        step_spec(old, new, r, target, excluded),
        no_pending_target(old, target),
    ensures
        !(r is Found),
        no_pending_target(new, target),
{
    let n = old.len();
    if n > 0 {
        let top = old[n - 1];
        if top.next < top.entries@.len() {
            assert(!top.entries@[top.next as int].is_file || top.entries@[top.next as int].name@ != target);
            assert forall|f: int, k: int|
                0 <= f < new.len() && new[f].next <= k < new[f].entries@.len() implies !(
                #[trigger] new[f].entries@[k]).is_file || new[f].entries@[k].name@ != target by {
                if f < n - 1 {
                    assert(new[f] == new.take(n - 1)[f]);
                    assert(old[f] == old.take(n - 1)[f]);
                } else if f == n - 1 {
                    assert(new[f].entries@[k] == old[f].entries@[k]);
                }
            }
        } else {
            assert forall|f: int, k: int|
                0 <= f < new.len() && new[f].next <= k < new[f].entries@.len() implies !(
                #[trigger] new[f].entries@[k]).is_file || new[f].entries@[k].name@ != target by {
                assert(new[f] == old[f]);
            }
        }
    }
}

} // verus!
