//! The session store: the finished per-file tables and, for every directory
//! between a file and its root, the sum of the tables below it.

use vstd::prelude::*;
use crate::entry_data::{merged, table_count, EntryData, EntryView};
use crate::entry_data::holds_index;
use crate::histogram::lines_view;
use crate::index::TextIndex;
use crate::paths::{
    lemma_trimmed, lemma_walk_shrinks, parent_path, strip_trailing_separators, trimmed, walk,
    walk_from,
};

verus! {

/// The table that `dirs` hold for `key`: empty where they hold none.
pub open spec fn table_at(dirs: Map<Seq<char>, Map<Seq<char>, nat>>, key: Seq<char>) -> Map<
    Seq<char>,
    nat,
> {
    if dirs.contains_key(key) {
        dirs[key]
    } else {
        Map::empty()
    }
}

/// `dirs` after `counts` was added to the table of `key`.
pub open spec fn touch(
    dirs: Map<Seq<char>, Map<Seq<char>, nat>>,
    key: Seq<char>,
    counts: Map<Seq<char>, nat>,
) -> Map<Seq<char>, Map<Seq<char>, nat>> {
    dirs.insert(key, merged(table_at(dirs, key), counts))
}

/// `dirs` after `counts` was added to the table of each of `keys` in turn.
pub open spec fn rolled(
    dirs: Map<Seq<char>, Map<Seq<char>, nat>>,
    keys: Seq<Seq<char>>,
    counts: Map<Seq<char>, nat>,
) -> Map<Seq<char>, Map<Seq<char>, nat>>
    decreases keys.len(),
{
    if keys.len() == 0 {
        dirs
    } else {
        touch(rolled(dirs, keys.drop_last(), counts), keys.last(), counts)
    }
}

/// The directory tables that recording `entries` one after the other builds
/// up from nothing.
pub open spec fn rollup_of(roots: Seq<Seq<char>>, entries: Seq<EntryView>) -> Map<
    Seq<char>,
    Map<Seq<char>, nat>,
>
    decreases entries.len(),
{
    if entries.len() == 0 {
        Map::empty()
    } else {
        rolled(
            rollup_of(roots, entries.drop_last()),
            walk(roots, entries.last().path),
            entries.last().counts,
        )
    }
}

/// Every sum that adding `counts` to the tables of `keys` forms stays within
/// `u64`.
pub open spec fn fits(
    dirs: Map<Seq<char>, Map<Seq<char>, nat>>,
    keys: Seq<Seq<char>>,
    counts: Map<Seq<char>, nat>,
) -> bool {
    forall|i: int, t: Seq<char>|
        0 <= i < keys.len() ==> #[trigger] table_count(table_at(dirs, keys[i]), t) + table_count(
            counts,
            t,
        ) <= u64::MAX
}

/// No key stands twice in `keys`.
pub open spec fn distinct_keys(keys: Seq<Seq<char>>) -> bool {
    forall|i: int, j: int| 0 <= i < j < keys.len() ==> #[trigger] keys[i] != #[trigger] keys[j]
}

/// Rolling up along `keys` leaves the table of any other key as it was.
pub proof fn lemma_rolled_elsewhere(
    dirs: Map<Seq<char>, Map<Seq<char>, nat>>,
    keys: Seq<Seq<char>>,
    counts: Map<Seq<char>, nat>,
    key: Seq<char>,
)
    requires
        !keys.contains(key),
    ensures
        rolled(dirs, keys, counts).contains_key(key) == dirs.contains_key(key),
        table_at(rolled(dirs, keys, counts), key) == table_at(dirs, key),
    decreases keys.len(),
{
    if keys.len() > 0 {
        let front = keys.drop_last();
        assert(keys.last() == keys[keys.len() - 1]);
        assert forall|i: int| 0 <= i < front.len() implies front[i] != key by {
            assert(front[i] == keys[i]);
        }
        lemma_rolled_elsewhere(dirs, front, counts, key);
    }
}

/// Every directory table is well formed and no path has two of them.
spec fn dirs_wf(dirs: Seq<EntryData>) -> bool {
    &&& forall|i: int| 0 <= i < dirs.len() ==> (#[trigger] dirs[i]).wf()
    &&& forall|i: int, j: int|
        0 <= i < j < dirs.len() ==> (#[trigger] dirs[i])@.path != (#[trigger] dirs[j])@.path
}

/// Some directory table is bound to `key`.
spec fn dirs_has(dirs: Seq<EntryData>, key: Seq<char>) -> bool {
    exists|i: int| 0 <= i < dirs.len() && (#[trigger] dirs[i])@.path == key
}

/// A directory table that is bound to `key`, where there is one.
spec fn dirs_index(dirs: Seq<EntryData>, key: Seq<char>) -> int {
    choose|i: int| 0 <= i < dirs.len() && (#[trigger] dirs[i])@.path == key
}

/// The directory tables as a map from path to table.
spec fn dirs_view(dirs: Seq<EntryData>) -> Map<Seq<char>, Map<Seq<char>, nat>> {
    Map::new(|key: Seq<char>| dirs_has(dirs, key), |key: Seq<char>| dirs[dirs_index(dirs, key)]@.counts)
}

/// The views of the finished entries.
pub open spec fn entries_view(entries: Seq<EntryData>) -> Seq<EntryView> {
    Seq::new(entries.len(), |i: int| entries[i]@)
}

/// Among well-formed directory tables a path is found at its own table and
/// nowhere else.
proof fn lemma_dirs_at(dirs: Seq<EntryData>, i: int)
    requires
        dirs_wf(dirs),
        0 <= i < dirs.len(),
    ensures
        dirs_has(dirs, dirs[i]@.path),
        dirs_index(dirs, dirs[i]@.path) == i,
        dirs_view(dirs).contains_key(dirs[i]@.path),
        dirs_view(dirs)[dirs[i]@.path] == dirs[i]@.counts,
{
    let key = dirs[i]@.path;
    assert(0 <= i < dirs.len() && dirs[i]@.path == key);
    let j = dirs_index(dirs, key);
    if j < i {
        assert(dirs[j]@.path != dirs[i]@.path);
    } else if i < j {
        assert(dirs[i]@.path != dirs[j]@.path);
    }
}

/// The tables of the first `upto` configured roots that have one, in the
/// order of the roots.
pub open spec fn root_tables(session: SessionView, upto: nat) -> Seq<EntryView>
    decreases upto,
{
    if upto == 0 {
        Seq::empty()
    } else {
        let rest = root_tables(session, (upto - 1) as nat);
        let root = session.roots[upto - 1];
        if session.directories.contains_key(root) {
            rest.push(EntryView { path: root, counts: session.directories[root] })
        } else {
            rest
        }
    }
}

/// The views of borrowed entries.
pub open spec fn borrowed_view(entries: Seq<&EntryData>) -> Seq<EntryView> {
    Seq::new(entries.len(), |i: int| entries[i]@)
}

/// The store of one run.
pub struct SessionData {
    pub term_regex: String,
    root_paths: Vec<String>,
    entries: Vec<EntryData>,
    directories: Vec<EntryData>,
    index: TextIndex,
}

/// The paths of the directory tables, in storage order.
spec fn dir_paths(dirs: Seq<EntryData>) -> Seq<Seq<char>> {
    Seq::new(dirs.len(), |i: int| dirs[i]@.path)
}

/// What a store holds: the term pattern of the run, the configured roots
/// without trailing separators, the finished entries in completion order,
/// and the table of every directory.
pub ghost struct SessionView {
    pub term_regex: Seq<char>,
    pub roots: Seq<Seq<char>>,
    pub entries: Seq<EntryView>,
    pub directories: Map<Seq<char>, Map<Seq<char>, nat>>,
}

impl View for SessionData {
    type V = SessionView;

    closed spec fn view(&self) -> SessionView {
        SessionView {
            term_regex: self.term_regex@,
            roots: lines_view(self.root_paths@),
            entries: entries_view(self.entries@),
            directories: dirs_view(self.directories@),
        }
    }
}

impl Default for SessionData {
    /// An empty store without roots.
    fn default() -> (session: Self)
        ensures
            session.wf(),
            session@.term_regex == Seq::<char>::empty(),
            session@.roots == Seq::<Seq<char>>::empty(),
            session@.entries == Seq::<EntryView>::empty(),
            session@.directories == Map::<Seq<char>, Map<Seq<char>, nat>>::empty(),
    {
        let session = SessionData::new(&Vec::new());
        assert(session@.roots =~= Seq::<Seq<char>>::empty());
        session
    }
}

impl SessionData {
    /// Every table is well formed, and no directory has two tables.
    spec fn tables_wf(&self) -> bool {
        &&& dirs_wf(self.directories@)
        &&& self.index.covers(dir_paths(self.directories@))
        &&& forall|i: int| 0 <= i < self.entries@.len() ==> (#[trigger] self.entries@[i]).wf()
    }

    /// The store's invariant: every table is well formed, no directory has
    /// two tables, and the directory tables are the rollup of the finished
    /// entries.
    pub closed spec fn wf(&self) -> bool {
        &&& self.tables_wf()
        &&& self@.directories == rollup_of(self@.roots, self@.entries)
    }

    /// The directory tables of a store are the rollup of its finished
    /// entries: nothing else is ever counted, and nothing twice.
    pub proof fn lemma_directories_are_rollup(&self)
        requires
            self.wf(),
        ensures
            self@.directories == rollup_of(self@.roots, self@.entries),
    {
    }

    /// An empty store for the given roots, which are kept without their
    /// trailing separators.
    pub fn new(root_paths: &Vec<String>) -> (session: Self)
        ensures
            session.wf(),
            session@.term_regex == Seq::<char>::empty(),
            session@.roots == Seq::new(root_paths@.len(), |i: int| trimmed(root_paths@[i]@)),
            session@.entries == Seq::<EntryView>::empty(),
            session@.directories == Map::<Seq<char>, Map<Seq<char>, nat>>::empty(),
    {
        let mut roots: Vec<String> = Vec::new();
        let mut i: usize = 0;
        while i < root_paths.len()
            invariant
                i <= root_paths@.len(),
                roots@.len() == i,
                forall|k: int| 0 <= k < i ==> (#[trigger] roots@[k])@ == trimmed(root_paths@[k]@),
            decreases root_paths@.len() - i,
        {
            roots.push(strip_trailing_separators(root_paths[i].as_str()));
            i += 1;
        }
        let session = SessionData {
            term_regex: String::new(),
            root_paths: roots,
            entries: Vec::new(),
            directories: Vec::new(),
            index: TextIndex::new(),
        };
        assert(dir_paths(session.directories@) =~= Seq::<Seq<char>>::empty());
        proof {
            assert(session@.roots =~= Seq::new(
                root_paths@.len(),
                |i: int| trimmed(root_paths@[i]@),
            ));
            assert(session@.entries =~= Seq::<EntryView>::empty());
            assert(session@.directories =~= Map::<Seq<char>, Map<Seq<char>, nat>>::empty());
        }
        session
    }

    /// Whether `path` is one of the configured roots.
    pub fn is_root(&self, path: &String) -> (found: bool)
        ensures
            found == self@.roots.contains(path@),
    {
        let mut i: usize = 0;
        while i < self.root_paths.len()
            invariant
                i <= self.root_paths@.len(),
                forall|k: int| 0 <= k < i ==> (#[trigger] self.root_paths@[k])@ != path@,
            decreases self.root_paths@.len() - i,
        {
            if self.root_paths[i] == *path {
                assert(self@.roots[i as int] == path@);
                return true;
            }
            i += 1;
        }
        proof {
            assert forall|k: int| 0 <= k < self@.roots.len() implies self@.roots[k] != path@ by {
                assert(self.root_paths@[k]@ != path@);
            }
        }
        false
    }

    /// The keys under which an entry bound to `path` is summed up: its own
    /// path and every ancestor up to the nearest configured root, or up to
    /// where the path has no parent left.
    pub fn ancestors(&self, path: &str) -> (keys: Vec<String>)
        ensures
            lines_view(keys@) == walk(self@.roots, path@),
    {
        let ghost roots = self@.roots;
        let mut keys: Vec<String> = Vec::new();
        let mut current = strip_trailing_separators(path);
        let mut done = false;
        proof {
            assert(lines_view(keys@) + walk_from(roots, current@) =~= walk(roots, path@));
        }
        while !done
            invariant
                roots == self@.roots,
                done ==> lines_view(keys@) == walk(roots, path@),
                !done ==> lines_view(keys@) + walk_from(roots, current@) == walk(roots, path@),
            decreases
                    (if done {
                        0
                    } else {
                        current@.len() + 1
                    }),
        {
            let at_root = self.is_root(&current);
            let ghost before = lines_view(keys@);
            let ghost here = current@;
            keys.push(current.clone());
            proof {
                assert(lines_view(keys@) =~= before + seq![here]);
            }
            if at_root {
                done = true;
            } else {
                match parent_path(current.as_str()) {
                    Some(p) => {
                        current = strip_trailing_separators(p.as_str());
                        proof {
                            lemma_trimmed(p@);
                            assert(lines_view(keys@) + walk_from(roots, current@) =~= before + (
                            seq![here] + walk_from(roots, current@)));
                        }
                    },
                    None => {
                        done = true;
                    },
                }
            }
        }
        keys
    }

    /// The row of the directory table bound to `key`, if there is one.
    fn find_directory(&self, key: &String) -> (at: Option<usize>)
        requires
            self.tables_wf(),
        ensures
            match at {
                Some(i) => i < self.directories@.len() && self.directories@[i as int]@.path == key@,
                None => !dirs_has(self.directories@, key@),
            },
    {
        let ghost paths = dir_paths(self.directories@);
        match self.index.candidates(key.as_str(), Ghost(paths)) {
            Some(places) => {
                let mut j: usize = 0;
                while j < places.len()
                    invariant
                        j <= places@.len(),
                        paths == dir_paths(self.directories@),
                        forall|k: int| 0 <= k < places@.len() ==> #[trigger] places@[k] < paths.len(),
                        forall|i: int|
                            0 <= i < paths.len() && #[trigger] paths[i] == key@ ==> holds_index(
                                places@,
                                i,
                            ),
                        forall|k: int|
                            0 <= k < j ==> self.directories@[#[trigger] places@[k] as int]@.path
                                != key@,
                    decreases places@.len() - j,
                {
                    let i = places[j];
                    if self.directories[i].is_at(key) {
                        return Some(i);
                    }
                    j += 1;
                }
                proof {
                    if dirs_has(self.directories@, key@) {
                        let i = dirs_index(self.directories@, key@);
                        assert(paths[i] == key@);
                        assert(holds_index(places@, i));
                        let k = choose|k: int| 0 <= k < places@.len() && #[trigger] places@[k] == i;
                        assert(self.directories@[places@[k] as int]@.path != key@);
                    }
                }
                None
            },
            None => {
                proof {
                    if dirs_has(self.directories@, key@) {
                        let i = dirs_index(self.directories@, key@);
                        assert(paths[i] == key@);
                    }
                }
                None
            },
        }
    }

    /// Adds the counts of `entry` to the table of the directory `key`, which
    /// is created on first touch.
    fn roll_into(&mut self, key: &String, entry: &EntryData)
        requires
            old(self).tables_wf(),
            entry.wf(),
            forall|t: Seq<char>| #[trigger]
                table_count(table_at(old(self)@.directories, key@), t) + table_count(
                    entry@.counts,
                    t,
                ) <= u64::MAX,
        ensures
            final(self).tables_wf(),
            final(self)@.term_regex == old(self)@.term_regex,
            final(self)@.roots == old(self)@.roots,
            final(self)@.entries == old(self)@.entries,
            final(self)@.directories == touch(old(self)@.directories, key@, entry@.counts),
    {
        let ghost before = self.directories@;
        let ghost want = touch(old(self)@.directories, key@, entry@.counts);
        match self.find_directory(key) {
            Some(i) => {
                proof {
                    lemma_dirs_at(before, i as int);
                }
                let last = self.directories.len() - 1;
                let mut dir = self.directories.swap_remove(i);
                proof {
                    assert forall|t: Seq<char>| dir.count_of(t) + #[trigger] entry.count_of(t)
                        <= u64::MAX by {
                        assert(table_count(table_at(old(self)@.directories, key@), t) + table_count(
                            entry@.counts,
                            t,
                        ) <= u64::MAX);
                    }
                }
                dir.tot_up(entry);
                self.directories.push(dir);
                if i < last {
                    let moved = self.directories.swap_remove(i);
                    self.directories.push(moved);
                }
                proof {
                    let after = self.directories@;
                    assert(after =~= before.update(i as int, dir));
                    assert(dir_paths(after) =~= dir_paths(before));
                    assert(after.len() == before.len());
                    assert forall|k: int| 0 <= k < after.len() && k != i implies after[k]
                        == before[k] by {}
                    assert(after[i as int] == dir);
                    assert forall|k: int| 0 <= k < after.len() implies (#[trigger] after[k])@.path
                        == before[k]@.path by {}
                    assert(dirs_wf(after)) by {
                        assert forall|a: int, b: int| 0 <= a < b < after.len() implies (
                        #[trigger] after[a])@.path != (#[trigger] after[b])@.path by {
                            assert(before[a]@.path != before[b]@.path);
                        }
                        assert forall|k: int| 0 <= k < after.len() implies (#[trigger] after[k]).wf() by {
                            if k != i {
                                assert(before[k].wf());
                            }
                        }
                    }
                    assert forall|k: Seq<char>| dirs_view(after).contains_key(k)
                        == want.contains_key(k) by {
                        if dirs_has(after, k) {
                            let j = dirs_index(after, k);
                            assert(before[j]@.path == k);
                        }
                        if dirs_has(before, k) {
                            let j = dirs_index(before, k);
                            assert(after[j]@.path == k);
                        }
                    }
                    assert forall|k: Seq<char>| dirs_view(after).contains_key(k) implies dirs_view(
                        after,
                    )[k] == want[k] by {
                        let j = dirs_index(after, k);
                        lemma_dirs_at(after, j);
                        lemma_dirs_at(before, j);
                    }
                    assert(dirs_view(after) =~= want);
                }
            },
            None => {
                let mut dir = EntryData::new(key.as_str());
                proof {
                    entry.lemma_view();
                    assert forall|t: Seq<char>| dir.count_of(t) + #[trigger] entry.count_of(t)
                        <= u64::MAX by {}
                }
                dir.tot_up(entry);
                self.index.add(key.as_str(), self.directories.len(), Ghost(dir_paths(before)));
                self.directories.push(dir);
                proof {
                    let after = self.directories@;
                    let last = before.len() as int;
                    assert(dir_paths(after) =~= dir_paths(before).push(key@));
                    assert forall|k: int| 0 <= k < before.len() implies after[k] == before[k] by {}
                    assert(after[last] == dir);
                    assert(dirs_wf(after)) by {
                        assert forall|a: int, b: int| 0 <= a < b < after.len() implies (
                        #[trigger] after[a])@.path != (#[trigger] after[b])@.path by {
                            if b < last {
                                assert(before[a]@.path != before[b]@.path);
                            } else {
                                assert(before[a]@.path != key@);
                            }
                        }
                        assert forall|k: int| 0 <= k < after.len() implies (#[trigger] after[k]).wf() by {
                            if k != last {
                                assert(before[k].wf());
                            }
                        }
                    }
                    assert(merged(Map::<Seq<char>, nat>::empty(), entry@.counts) =~= dir@.counts);
                    assert forall|k: Seq<char>| dirs_view(after).contains_key(k)
                        == want.contains_key(k) by {
                        if dirs_has(after, k) {
                            let j = dirs_index(after, k);
                            if j < last {
                                assert(before[j]@.path == k);
                            }
                        }
                        if dirs_has(before, k) {
                            let j = dirs_index(before, k);
                            assert(after[j]@.path == k);
                        }
                        if k == key@ {
                            assert(after[last]@.path == k);
                        }
                    }
                    assert forall|k: Seq<char>| dirs_view(after).contains_key(k) implies dirs_view(
                        after,
                    )[k] == want[k] by {
                        let j = dirs_index(after, k);
                        lemma_dirs_at(after, j);
                        if j < last {
                            lemma_dirs_at(before, j);
                        }
                    }
                    assert(dirs_view(after) =~= want);
                }
            },
        }
    }

    /// The configured roots, without trailing separators.
    pub fn root_paths(&self) -> (roots: &Vec<String>)
        ensures
            lines_view(roots@) == self@.roots,
    {
        &self.root_paths
    }

    /// The finished entries in completion order.
    pub fn entries(&self) -> (entries: &Vec<EntryData>)
        requires
            self.wf(),
        ensures
            entries_view(entries@) == self@.entries,
            forall|i: int| 0 <= i < entries@.len() ==> (#[trigger] entries@[i]).wf(),
    {
        &self.entries
    }

    /// The table of the directory or file `path`, if anything was summed up
    /// under it.
    pub fn directory(&self, path: &String) -> (found: Option<&EntryData>)
        requires
            self.wf(),
        ensures
            match found {
                Some(entry) => entry.wf() && self@.directories.contains_key(path@) && entry@
                    == (EntryView { path: path@, counts: self@.directories[path@] }),
                None => !self@.directories.contains_key(path@),
            },
    {
        match self.find_directory(path) {
            Some(i) => {
                proof {
                    lemma_dirs_at(self.directories@, i as int);
                }
                Some(&self.directories[i])
            },
            None => None,
        }
    }

    /// The tables of the configured roots that have one, in the order of the
    /// roots.
    pub fn root_entries(&self) -> (found: Vec<&EntryData>)
        requires
            self.wf(),
        ensures
            borrowed_view(found@) == root_tables(self@, self@.roots.len()),
            forall|i: int| 0 <= i < found@.len() ==> (#[trigger] found@[i]).wf(),
    {
        let mut found: Vec<&EntryData> = Vec::new();
        let mut i: usize = 0;
        while i < self.root_paths.len()
            invariant
                i <= self.root_paths@.len(),
                self.wf(),
                borrowed_view(found@) == root_tables(self@, i as nat),
                forall|k: int| 0 <= k < found@.len() ==> (#[trigger] found@[k]).wf(),
            decreases self.root_paths@.len() - i,
        {
            let ghost before = borrowed_view(found@);
            match self.directory(&self.root_paths[i]) {
                Some(entry) => {
                    found.push(entry);
                    proof {
                        assert(borrowed_view(found@) =~= before.push(entry@));
                    }
                },
                None => {},
            }
            i += 1;
        }
        found
    }

    /// Records a finished entry where every sum stays within `u64`, and
    /// leaves the store as it is where one would not.
    pub fn record(&mut self, entry: EntryData) -> (recorded: bool)
        requires
            old(self).wf(),
            entry.wf(),
        ensures
            final(self).wf(),
            final(self)@.term_regex == old(self)@.term_regex,
            recorded == fits(
                old(self)@.directories,
                walk(old(self)@.roots, entry@.path),
                entry@.counts,
            ),
            !recorded ==> final(self)@ == old(self)@,
            recorded ==> final(self)@.roots == old(self)@.roots,
            recorded ==> final(self)@.entries == old(self)@.entries.push(entry@),
            recorded ==> final(self)@.directories == rolled(
                old(self)@.directories,
                walk(old(self)@.roots, entry@.path),
                entry@.counts,
            ),
    {
        let keys = self.ancestors(entry.path());
        let ghost path_keys = lines_view(keys@);
        let ghost start = self@.directories;
        let mut i: usize = 0;
        while i < keys.len()
            invariant
                i <= keys@.len(),
                self.wf(),
                entry.wf(),
                path_keys == lines_view(keys@),
                path_keys == walk(old(self)@.roots, entry@.path),
                start == self@.directories,
                *self == *old(self),
                forall|k: int, t: Seq<char>|
                    0 <= k < i ==> #[trigger] table_count(table_at(start, path_keys[k]), t)
                        + table_count(entry@.counts, t) <= u64::MAX,
            decreases keys@.len() - i,
        {
            match self.find_directory(&keys[i]) {
                Some(at) => {
                    proof {
                        lemma_dirs_at(self.directories@, at as int);
                    }
                    let dir = &self.directories[at];
                    if !dir.can_tot_up(&entry) {
                        proof {
                            if fits(start, path_keys, entry@.counts) {
                                assert forall|t: Seq<char>|
                                    dir.count_of(t) + #[trigger] entry.count_of(t)
                                        <= u64::MAX by {
                                    assert(table_count(table_at(start, path_keys[i as int]), t)
                                        + table_count(entry@.counts, t) <= u64::MAX);
                                }
                            }
                        }
                        return false;
                    }
                    proof {
                        assert forall|t: Seq<char>| #[trigger]
                            table_count(table_at(start, path_keys[i as int]), t) + table_count(
                                entry@.counts,
                                t,
                            ) <= u64::MAX by {
                            assert(dir.count_of(t) + entry.count_of(t) <= u64::MAX);
                        }
                    }
                },
                None => {
                    proof {
                        entry.lemma_view();
                        assert forall|t: Seq<char>| #[trigger]
                            table_count(table_at(start, path_keys[i as int]), t) + table_count(
                                entry@.counts,
                                t,
                            ) <= u64::MAX by {
                            assert(entry.count_of(t) <= u64::MAX);
                        }
                    }
                },
            }
            i += 1;
        }
        self.insert_entry_data(entry);
        true
    }

    /// Records a finished entry: appends it to the finished entries and adds
    /// its counts to the table of its own path and of every ancestor up to
    /// the nearest configured root.
    pub fn insert_entry_data(&mut self, entry: EntryData)
        requires
            old(self).wf(),
            entry.wf(),
            fits(
                old(self)@.directories,
                walk(old(self)@.roots, entry@.path),
                entry@.counts,
            ),
        ensures
            final(self).wf(),
            final(self)@.term_regex == old(self)@.term_regex,
            final(self)@.roots == old(self)@.roots,
            final(self)@.entries == old(self)@.entries.push(entry@),
            final(self)@.directories == rolled(
                old(self)@.directories,
                walk(old(self)@.roots, entry@.path),
                entry@.counts,
            ),
    {
        let keys = self.ancestors(entry.path());
        let ghost path_keys = lines_view(keys@);
        let ghost start = old(self)@.directories;
        proof {
            lemma_walk_shrinks(old(self)@.roots, trimmed(entry@.path));
        }
        let mut i: usize = 0;
        while i < keys.len()
            invariant
                i <= keys@.len(),
                self.tables_wf(),
                entry.wf(),
                path_keys == lines_view(keys@),
                distinct_keys(path_keys),
                fits(start, path_keys, entry@.counts),
                self@.term_regex == old(self)@.term_regex,
                self@.roots == old(self)@.roots,
                self@.entries == old(self)@.entries,
                self@.directories == rolled(start, path_keys.take(i as int), entry@.counts),
            decreases keys@.len() - i,
        {
            proof {
                let done = path_keys.take(i as int);
                assert forall|k: int| 0 <= k < done.len() implies done[k] != path_keys[i as int] by {
                    assert(done[k] == path_keys[k]);
                }
                lemma_rolled_elsewhere(start, done, entry@.counts, path_keys[i as int]);
                assert forall|t: Seq<char>| #[trigger]
                    table_count(table_at(self@.directories, keys@[i as int]@), t) + table_count(
                        entry@.counts,
                        t,
                    ) <= u64::MAX by {
                    assert(table_count(table_at(start, path_keys[i as int]), t) + table_count(
                        entry@.counts,
                        t,
                    ) <= u64::MAX);
                }
                assert(path_keys.take(i + 1).drop_last() =~= done);
            }
            self.roll_into(&keys[i], &entry);
            i += 1;
        }
        proof {
            assert(path_keys.take(i as int) =~= path_keys);
        }
        let ghost pushed = old(self)@.entries.push(entry@);
        self.entries.push(entry);
        proof {
            assert(self@.entries =~= pushed);
            assert(pushed.drop_last() =~= old(self)@.entries);
            assert(path_keys == walk(old(self)@.roots, entry@.path));
        }
    }
}

} // verus!
