use vstd::prelude::*;
use crate::types::{DirEntry, EntryKind};
use crate::util::{append_bytes, clone_bytes};
use crate::{HIDDEN_ENTRY_PREFIX, SEPARATOR};

verus! {

/// The byte views of a sequence of paths, in order.
pub open spec fn paths_view(s: Seq<Vec<u8>>) -> Seq<Seq<u8>> {
    s.map_values(|v: Vec<u8>| v@)
}

/// Whether an entry name marks its entry as hidden.
pub open spec fn hidden_name(name: Seq<u8>) -> bool {
    name.len() > 0 && name[0] == HIDDEN_ENTRY_PREFIX
}

/// Whether no path component beginning at or after `start` is hidden:
/// wherever a separator stands, the byte after it is not the hidden marker.
pub open spec fn no_hidden_after(p: Seq<u8>, start: int) -> bool {
    forall|i: int| start <= i < p.len() && p[i - 1] == SEPARATOR ==> #[trigger] p[i]
        != HIDDEN_ENTRY_PREFIX
}

/// Whether `p` is a visible path beneath `root`: the root, one separator,
/// then components none of which is hidden, at any depth.
pub open spec fn visible_under(root: Seq<u8>, p: Seq<u8>) -> bool {
    &&& p.len() > root.len()
    &&& p.subrange(0, root.len() as int) == root
    &&& p[root.len() as int] == SEPARATOR
    &&& no_hidden_after(p, root.len() as int + 1)
}

/// A directory path joined with one of its entries' names.
pub open spec fn joined(dir: Seq<u8>, name: Seq<u8>) -> Seq<u8> {
    dir + seq![SEPARATOR] + name
}

/// The name and kind of each listing entry, in order.
pub open spec fn entry_pairs(s: Seq<DirEntry>) -> Seq<(Seq<u8>, EntryKind)> {
    s.map_values(|e: DirEntry| (e.name@, e.kind))
}

/// The paths that the visible regular files of a listing of `dir`
/// contribute, in listing order.
pub open spec fn visible_files_of(dir: Seq<u8>, es: Seq<(Seq<u8>, EntryKind)>) -> Seq<Seq<u8>>
    decreases es.len(),
{
    if es.len() == 0 {
        Seq::empty()
    } else {
        visible_files_of(dir, es.drop_last()) + (if !hidden_name(es.last().0) && es.last().1
            is File {
            seq![joined(dir, es.last().0)]
        } else {
            Seq::empty()
        })
    }
}

/// The paths that the visible directories of a listing of `dir`
/// contribute, in listing order.
pub open spec fn visible_folders_of(dir: Seq<u8>, es: Seq<(Seq<u8>, EntryKind)>) -> Seq<Seq<u8>>
    decreases es.len(),
{
    if es.len() == 0 {
        Seq::empty()
    } else {
        visible_folders_of(dir, es.drop_last()) + (if !hidden_name(es.last().0) && es.last().1
            is Dir {
            seq![joined(dir, es.last().0)]
        } else {
            Seq::empty()
        })
    }
}

/// Joining a visible, separator-free name onto the root or onto a visible
/// path gives a visible path.
proof fn lemma_joined_visible(root: Seq<u8>, dir: Seq<u8>, name: Seq<u8>)
    requires
        dir == root || visible_under(root, dir),
        !hidden_name(name),
        !name.contains(SEPARATOR),
    ensures
        visible_under(root, joined(dir, name)),
{
    let p = joined(dir, name);
    assert(p.len() == dir.len() + 1 + name.len());
    assert(dir.len() >= root.len());
    assert forall|j: int| 0 <= j < root.len() implies p[j] == root[j] by {
        assert(p[j] == dir[j]);
        if dir != root {
            assert(dir.subrange(0, root.len() as int)[j] == dir[j]);
        }
    }
    assert(p.subrange(0, root.len() as int) =~= root);
    assert(p[dir.len() as int] == SEPARATOR);
    if dir != root {
        assert(p[root.len() as int] == dir[root.len() as int]);
    }
    assert forall|i: int|
        root.len() + 1 <= i < p.len() && p[i - 1] == SEPARATOR implies #[trigger] p[i]
        != HIDDEN_ENTRY_PREFIX by {
        if i < dir.len() {
            assert(p[i] == dir[i]);
            assert(p[i - 1] == dir[i - 1]);
        } else if i == dir.len() {
            assert(p[i] == SEPARATOR);
        } else if i == dir.len() + 1 {
            assert(p[i] == name[0]);
        } else {
            assert(p[i - 1] == name[i - 2 - dir.len()]);
            assert(!name.contains(SEPARATOR));
            assert(name[i - 2 - dir.len()] != SEPARATOR);
        }
    }
}

/// An iterative walk of a directory tree: a worklist of pending
/// directories, the visible files found so far, and the directory whose
/// listing is expected next. The walk itself never touches the file
/// system; its caller lists each pending directory and hands the entries
/// back.
pub struct DirWalk {
    root: Vec<u8>,
    files: Vec<Vec<u8>>,
    folders: Vec<Vec<u8>>,
    current: Ghost<Option<Seq<u8>>>,
}

impl DirWalk {
    /// The root path the walk was started with.
    pub closed spec fn root_view(&self) -> Seq<u8> {
        self.root@
    }

    /// The visible file paths found so far, in discovery order.
    pub closed spec fn files_view(&self) -> Seq<Seq<u8>> {
        paths_view(self.files@)
    }

    /// The pending directory paths, in worklist order.
    pub closed spec fn folders_view(&self) -> Seq<Seq<u8>> {
        paths_view(self.folders@)
    }

    /// The directory whose listing is expected next, if one is pending.
    pub closed spec fn current_view(&self) -> Option<Seq<u8>> {
        self.current@
    }

    /// Every path the walk holds lies beneath the root with no hidden
    /// component; pending directories may also be the root itself.
    pub closed spec fn wf(&self) -> bool {
        &&& forall|i: int| 0 <= i < self.files@.len() ==> visible_under(
            self.root@,
            #[trigger] self.files@[i]@,
        )
        &&& forall|i: int| 0 <= i < self.folders@.len() ==> (#[trigger] self.folders@[i]@
            == self.root@ || visible_under(self.root@, self.folders@[i]@))
        &&& match self.current@ {
            Some(c) => c == self.root@ || visible_under(self.root@, c),
            None => true,
        }
    }

    /// Starts a walk of the tree beneath `root`: no files found yet, the
    /// root itself the one pending directory.
    pub fn new(root: Vec<u8>) -> (w: Self)
        ensures
            w.wf(),
            w.root_view() == root@,
            w.files_view() == Seq::<Seq<u8>>::empty(),
            w.folders_view() == seq![root@],
            w.current_view() is None,
    {
        let ghost rv = root@;
        let mut folders: Vec<Vec<u8>> = Vec::new();
        folders.push(root);
        let w = DirWalk {
            root: clone_bytes(folders[0].as_slice()),
            files: Vec::new(),
            folders,
            current: Ghost(None),
        };
        proof {
            assert(w.files_view() =~= Seq::<Seq<u8>>::empty());
            assert(w.folders_view() =~= seq![rv]);
        }
        w
    }

    /// Removes one pending directory from the worklist and hands its path
    /// out to be listed, remembering that its listing is expected next.
    /// Returns nothing once the worklist is empty: the walk is complete.
    pub fn next_folder(&mut self) -> (r: Option<Vec<u8>>)
        requires
            old(self).wf(),
            old(self).current_view() is None,
        ensures
            final(self).wf(),
            final(self).root_view() == old(self).root_view(),
            final(self).files_view() == old(self).files_view(),
            match r {
                None => {
                    &&& old(self).folders_view().len() == 0
                    &&& final(self).folders_view() == old(self).folders_view()
                    &&& final(self).current_view() is None
                },
                Some(p) => {
                    &&& old(self).folders_view().len() > 0
                    &&& p@ == old(self).folders_view().last()
                    &&& final(self).folders_view() == old(self).folders_view().drop_last()
                    &&& final(self).current_view() == Some(p@)
                },
            },
    {
        let ghost before = self.folders@;
        match self.folders.pop() {
            None => {
                proof {
                    assert(paths_view(self.folders@) =~= paths_view(before));
                }
                None
            },
            Some(p) => {
                self.current = Ghost(Some(p@));
                proof {
                    assert(paths_view(self.folders@) =~= paths_view(before).drop_last());
                    assert(p@ == paths_view(before).last());
                }
                Some(p)
            },
        }
    }

    /// Takes one directory listing into the walk: every visible entry's
    /// path (the listed directory's path, one separator, the entry's own
    /// name) joins the found files or the pending directories according
    /// to its kind; hidden entries, and entries of any other kind, are
    /// skipped entirely. `dir` must be the path handed out last.
    pub fn push_entries(&mut self, dir: &Vec<u8>, entries: &Vec<DirEntry>)
        requires
            old(self).wf(),
            old(self).current_view() == Some(dir@),
            forall|i: int| 0 <= i < entries@.len() ==> !(#[trigger] entries@[i]).name@.contains(
                SEPARATOR,
            ),
        ensures
            final(self).wf(),
            final(self).root_view() == old(self).root_view(),
            final(self).current_view() is None,
            final(self).files_view() == old(self).files_view() + visible_files_of(
                dir@,
                entry_pairs(entries@),
            ),
            final(self).folders_view() == old(self).folders_view() + visible_folders_of(
                dir@,
                entry_pairs(entries@),
            ),
    {
        self.current = Ghost(None);
        let ghost root = self.root@;
        let ghost files0 = paths_view(self.files@);
        let ghost folders0 = paths_view(self.folders@);
        let ghost pairs = entry_pairs(entries@);
        let n = entries.len();
        let mut i: usize = 0;
        while i < n
            invariant
                i <= n,
                n == entries@.len(),
                pairs == entry_pairs(entries@),
                forall|k: int| 0 <= k < entries@.len() ==> !(#[trigger] entries@[k]).name@.contains(
                    SEPARATOR,
                ),
                self.root@ == root,
                self.current@ is None,
                dir@ == root || visible_under(root, dir@),
                forall|k: int| 0 <= k < self.files@.len() ==> visible_under(
                    root,
                    #[trigger] self.files@[k]@,
                ),
                forall|k: int| 0 <= k < self.folders@.len() ==> (#[trigger] self.folders@[k]@
                    == root || visible_under(root, self.folders@[k]@)),
                paths_view(self.files@) == files0 + visible_files_of(dir@, pairs.take(i as int)),
                paths_view(self.folders@) == folders0 + visible_folders_of(
                    dir@,
                    pairs.take(i as int),
                ),
            decreases n - i,
        {
            let ghost files_pre = paths_view(self.files@);
            let ghost folders_pre = paths_view(self.folders@);
            let e = &entries[i];
            let hidden = e.name.len() > 0 && e.name[0] == 46u8;
            proof {
                assert(pairs[i as int] == (e.name@, e.kind));
                assert(hidden == hidden_name(e.name@));
                assert(pairs.take(i + 1).drop_last() =~= pairs.take(i as int));
                assert(pairs.take(i + 1).last() == pairs[i as int]);
            }
            if !hidden {
                match e.kind {
                    EntryKind::File => {
                        let p = join_path(dir, &e.name);
                        proof {
                            lemma_joined_visible(root, dir@, e.name@);
                        }
                        self.files.push(p);
                        proof {
                            assert(paths_view(self.files@) =~= files_pre.push(
                                joined(dir@, e.name@),
                            ));
                            assert(visible_files_of(dir@, pairs.take(i + 1))
                                == visible_files_of(dir@, pairs.take(i as int)) + seq![
                                joined(dir@, e.name@),
                            ]);
                        }
                    },
                    EntryKind::Dir => {
                        let p = join_path(dir, &e.name);
                        proof {
                            lemma_joined_visible(root, dir@, e.name@);
                        }
                        self.folders.push(p);
                        proof {
                            assert(paths_view(self.folders@) =~= folders_pre.push(
                                joined(dir@, e.name@),
                            ));
                            assert(visible_folders_of(dir@, pairs.take(i + 1))
                                == visible_folders_of(dir@, pairs.take(i as int)) + seq![
                                joined(dir@, e.name@),
                            ]);
                        }
                    },
                    EntryKind::Other => {},
                }
            }
            proof {
                assert(visible_files_of(dir@, pairs.take(i + 1)) =~= visible_files_of(
                    dir@,
                    pairs.take(i as int),
                ) + (if !hidden_name(pairs[i as int].0) && pairs[i as int].1 is File {
                    seq![joined(dir@, pairs[i as int].0)]
                } else {
                    Seq::<Seq<u8>>::empty()
                }));
                assert(visible_folders_of(dir@, pairs.take(i + 1)) =~= visible_folders_of(
                    dir@,
                    pairs.take(i as int),
                ) + (if !hidden_name(pairs[i as int].0) && pairs[i as int].1 is Dir {
                    seq![joined(dir@, pairs[i as int].0)]
                } else {
                    Seq::<Seq<u8>>::empty()
                }));
                assert(paths_view(self.files@) =~= files0 + visible_files_of(
                    dir@,
                    pairs.take(i + 1),
                ));
                assert(paths_view(self.folders@) =~= folders0 + visible_folders_of(
                    dir@,
                    pairs.take(i + 1),
                ));
            }
            i = i + 1;
        }
        proof {
            assert(pairs.take(n as int) =~= pairs);
        }
    }

    /// Ends the walk, handing over the visible file paths it collected.
    pub fn into_files(self) -> (r: Vec<Vec<u8>>)
        ensures
            paths_view(r@) == self.files_view(),
    {
        self.files
    }

    /// Hidden exclusion: every file path a well-formed walk holds lies
    /// beneath the root, and no component of it, at any depth, starts
    /// with the hidden marker.
    pub proof fn lemma_hidden_excluded(&self)
        requires
            self.wf(),
        ensures
            forall|i: int| 0 <= i < self.files_view().len() ==> visible_under(
                self.root_view(),
                #[trigger] self.files_view()[i],
            ),
    {
        assert forall|i: int| 0 <= i < self.files_view().len() implies visible_under(
            self.root_view(),
            #[trigger] self.files_view()[i],
        ) by {
            assert(self.files_view()[i] == self.files@[i]@);
        }
    }
}

/// A directory path joined with one of its entries' names: the path, one
/// separator byte, the name.
pub fn join_path(dir: &Vec<u8>, name: &Vec<u8>) -> (r: Vec<u8>)
    ensures
        r@ == joined(dir@, name@),
{
    let mut r = clone_bytes(dir.as_slice());
    r.push(SEPARATOR);
    append_bytes(&mut r, name.as_slice());
    assert(r@ =~= joined(dir@, name@));
    r
}

} // verus!
