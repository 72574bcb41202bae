//! The version store and the history engine over it: a tree of versions,
//! each kept as a delta against its base, with one of them current.
//!
//! The engine never touches a file. Each operation takes what the working
//! file holds as an argument and hands back what the working file must be
//! set to, so that the caller does the reading, writing and persisting.
use vstd::prelude::*;
use vstd::string::*;

use crate::diff::{
    apply, copy_bytes, copy_difference, delta, diff, lemma_round_trip, no_change, patched,
    DiffView, Difference,
};
use crate::error::Error;

verus! {

/// One node of the history tree.
#[derive(Debug)]
pub struct Version {
    pub id: u32,
    pub base: u32,
    pub name: String,
    /// Creation time, in seconds since the Unix epoch.
    pub date: i64,
    pub difference: Difference,
}

pub struct VersionView {
    pub id: u32,
    pub base: u32,
    pub name: Seq<char>,
    pub date: i64,
    pub difference: DiffView,
}

impl View for Version {
    type V = VersionView;

    open spec fn view(&self) -> VersionView {
        VersionView {
            id: self.id,
            base: self.base,
            name: self.name@,
            date: self.date,
            difference: self.difference@,
        }
    }
}

impl Version {
    pub fn id(&self) -> (r: u32)
        ensures
            r == self.id,
    {
        self.id
    }

    pub fn base(&self) -> (r: u32)
        ensures
            r == self.base,
    {
        self.base
    }

    pub fn name(&self) -> (r: &String)
        ensures
            r@ == self.name@,
    {
        &self.name
    }

    pub fn date(&self) -> (r: i64)
        ensures
            r == self.date,
    {
        self.date
    }

    pub fn difference(&self) -> (r: &Difference)
        ensures
            r@ == self.difference@,
    {
        &self.difference
    }

    /// A copy of this version, field for field.
    pub fn duplicate(&self) -> (r: Version)
        ensures
            r@ == self@,
    {
        Version {
            id: self.id,
            base: self.base,
            name: self.name.clone(),
            date: self.date,
            difference: copy_difference(&self.difference),
        }
    }
}

/// The views of a run of versions.
pub open spec fn views(vs: Seq<Version>) -> Seq<VersionView> {
    vs.map_values(|v: Version| v@)
}

/// Ids grow strictly along the sequence: creation order is kept.
pub open spec fn ids_increasing(vs: Seq<VersionView>) -> bool {
    forall|i: int, j: int| 0 <= i < j < vs.len() ==> vs[i].id < vs[j].id
}

pub open spec fn has_id(vs: Seq<VersionView>, id: u32) -> bool {
    exists|i: int| 0 <= i < vs.len() && vs[i].id == id
}

/// Where the version with `id` stands, or -1.
pub open spec fn index_of(vs: Seq<VersionView>, id: u32) -> int {
    if has_id(vs, id) {
        choose|i: int| 0 <= i < vs.len() && vs[i].id == id
    } else {
        -1
    }
}

/// The content of the version at index `i`: the seed for the root, else the
/// content of its base with its delta replayed; `None` where a base does not
/// stand earlier or a delta does not fit.
pub open spec fn content(vs: Seq<VersionView>, seed: Seq<u8>, i: int) -> Option<Seq<u8>>
    decreases i,
{
    if i <= 0 {
        Some(seed)
    } else {
        let b = index_of(vs, vs[i].base);
        if 0 <= b < i {
            match content(vs, seed, b) {
                Some(c) => patched(c, vs[i].difference),
                None => None,
            }
        } else {
            None
        }
    }
}

/// The root comes first and is its own base, with an empty delta; ids grow;
/// every other version's base stands strictly earlier.
pub open spec fn tree_shaped(vs: Seq<VersionView>) -> bool {
    &&& vs.len() > 0
    &&& vs[0].base == vs[0].id
    &&& vs[0].difference == no_change()
    &&& ids_increasing(vs)
    &&& forall|i: int| 0 < i < vs.len() ==> 0 <= #[trigger] index_of(vs, vs[i].base) < i
}

/// Following bases from index `i` ends at the root.
pub open spec fn reaches_root(vs: Seq<VersionView>, i: int) -> bool
    decreases i,
{
    if i == 0 {
        true
    } else if 0 < i < vs.len() {
        let b = index_of(vs, vs[i].base);
        0 <= b < i && reaches_root(vs, b)
    } else {
        false
    }
}

pub struct SbvcView {
    pub versions: Seq<VersionView>,
    pub current: u32,
    pub seed: Seq<u8>,
    pub file: Seq<char>,
    pub next_id: u32,
}

/// The store's invariant: a tree of versions, a current version that
/// exists, an id counter past every id, and a content for every version.
pub open spec fn well_formed(s: SbvcView) -> bool {
    &&& tree_shaped(s.versions)
    &&& has_id(s.versions, s.current)
    &&& forall|i: int| 0 <= i < s.versions.len() ==> (#[trigger] s.versions[i]).id < s.next_id
    &&& forall|i: int|
        0 <= i < s.versions.len() ==> (#[trigger] content(s.versions, s.seed, i)).is_some()
}

/// The store that the given records describe.
pub open spec fn parts(versions: Seq<Version>, current: u32, seed: Seq<u8>, file: Seq<char>, next_id: u32) -> SbvcView {
    SbvcView { versions: views(versions), current, seed, file, next_id }
}

/// The rules of a store but for the fit of its deltas.
pub open spec fn shaped(s: SbvcView) -> bool {
    &&& tree_shaped(s.versions)
    &&& has_id(s.versions, s.current)
    &&& forall|i: int| 0 <= i < s.versions.len() ==> (#[trigger] s.versions[i]).id < s.next_id
}

/// The content of the version with `id`.
pub open spec fn content_of(s: SbvcView, id: u32) -> Seq<u8> {
    content(s.versions, s.seed, index_of(s.versions, id)).unwrap()
}

/// The store after committing `working` on `date`: unchanged where it equals
/// the current content, else with a new version on top of the current one,
/// which becomes current.
pub open spec fn committed(s: SbvcView, working: Seq<u8>, date: i64) -> SbvcView {
    if working == content_of(s, s.current) {
        s
    } else {
        SbvcView {
            versions: s.versions.push(
                VersionView {
                    id: s.next_id,
                    base: s.current,
                    name: "Untitled"@,
                    date: date,
                    difference: delta(content_of(s, s.current), working),
                },
            ),
            current: s.next_id,
            next_id: (s.next_id + 1) as u32,
            ..s
        }
    }
}

/// The index of the current version.
pub open spec fn current_index(s: SbvcView) -> int {
    index_of(s.versions, s.current)
}

/// The store after the current version takes the name `name`.
pub open spec fn renamed(s: SbvcView, name: Seq<char>) -> SbvcView {
    SbvcView {
        versions: s.versions.update(
            current_index(s),
            VersionView { name: name, ..s.versions[current_index(s)] },
        ),
        ..s
    }
}

/// The base of the current version.
pub open spec fn current_base(s: SbvcView) -> u32 {
    s.versions[current_index(s)].base
}

/// The store after the current version is removed and its base made
/// current.
pub open spec fn deleted(s: SbvcView) -> SbvcView {
    SbvcView {
        versions: without(s.versions, s.seed, current_index(s)),
        current: current_base(s),
        ..s
    }
}

/// A name is blank when it holds only whitespace.
pub open spec fn blank(name: Seq<char>) -> bool {
    forall|i: int| 0 <= i < name.len() ==> is_space(#[trigger] name[i])
}

pub open spec fn is_space(c: char) -> bool {
    c == ' ' || c == '\t' || c == '\n' || c == '\r'
}

/// The index in `vs` of what stands at `j` once index `k` is removed.
pub open spec fn old_index(k: int, j: int) -> int {
    if j < k {
        j
    } else {
        j + 1
    }
}

/// The index that `i` of `vs` takes once index `k` is removed.
pub open spec fn new_index(k: int, i: int) -> int {
    if i < k {
        i
    } else {
        i - 1
    }
}

/// The version at index `k` removed; each version whose base it was now has
/// its base's base, with a delta that keeps its content.
pub open spec fn without(vs: Seq<VersionView>, seed: Seq<u8>, k: int) -> Seq<VersionView> {
    Seq::new((vs.len() - 1) as nat, |j: int| relinked(vs, seed, k, old_index(k, j)))
}

/// The version at index `o` once the one at index `k` is removed.
pub open spec fn relinked(vs: Seq<VersionView>, seed: Seq<u8>, k: int, o: int) -> VersionView {
    let gone = vs[k];
    if vs[o].base == gone.id {
        VersionView {
            base: gone.base,
            difference: delta(
                content(vs, seed, index_of(vs, gone.base)).unwrap(),
                content(vs, seed, o).unwrap(),
            ),
            ..vs[o]
        }
    } else {
        vs[o]
    }
}

proof fn lemma_index_of(vs: Seq<VersionView>, j: int)
    requires
        ids_increasing(vs),
        0 <= j < vs.len(),
    ensures
        has_id(vs, vs[j].id),
        index_of(vs, vs[j].id) == j,
{
    let id = vs[j].id;
    assert(has_id(vs, id));
    let i = index_of(vs, id);
    if i < j {
        assert(vs[i].id < vs[j].id);
    } else if i > j {
        assert(vs[j].id < vs[i].id);
    }
}

proof fn lemma_index_of_present(vs: Seq<VersionView>, id: u32)
    requires
        has_id(vs, id),
    ensures
        0 <= index_of(vs, id) < vs.len(),
        vs[index_of(vs, id)].id == id,
{
}

/// Every version of a well-formed store has exactly one content, and
/// following bases from it ends at the root, which is the one version that
/// is its own base.
pub proof fn lemma_tree(s: SbvcView)
    requires
        well_formed(s),
    ensures
        forall|i: int|
            0 <= i < s.versions.len() ==> ((#[trigger] s.versions[i]).base == s.versions[i].id <==> i == 0),
        forall|i: int| 0 <= i < s.versions.len() ==> #[trigger] reaches_root(s.versions, i),
        forall|i: int| 0 <= i < s.versions.len() ==> (#[trigger] content(s.versions, s.seed, i)).is_some(),
{
    let vs = s.versions;
    assert forall|i: int| 0 <= i < vs.len() implies (#[trigger] vs[i]).base == vs[i].id <==> i == 0 by {
        if i > 0 {
            let b = index_of(vs, vs[i].base);
            assert(0 <= b < i);
            lemma_index_of_present(vs, vs[i].base);
            assert(vs[b].id < vs[i].id);
        }
    }
    assert forall|i: int| 0 <= i < vs.len() implies #[trigger] reaches_root(vs, i) by {
        lemma_reaches_root(vs, i);
    }
}

proof fn lemma_reaches_root(vs: Seq<VersionView>, i: int)
    requires
        tree_shaped(vs),
        0 <= i < vs.len(),
    ensures
        reaches_root(vs, i),
    decreases i,
{
    if i > 0 {
        lemma_reaches_root(vs, index_of(vs, vs[i].base));
    }
}

/// Content depends on ids, bases and deltas alone: where `ws` agrees with
/// `vs` on those over all of `vs`, both give every version of `vs` the same
/// content.
proof fn lemma_content_prefix(vs: Seq<VersionView>, ws: Seq<VersionView>, seed: Seq<u8>, i: int)
    requires
        ids_increasing(vs),
        ids_increasing(ws),
        0 <= i < vs.len() <= ws.len(),
        forall|j: int|
            0 <= j < vs.len() ==> (#[trigger] ws[j]).id == vs[j].id && ws[j].base == vs[j].base
                && ws[j].difference == vs[j].difference,
        forall|j: int| 0 < j < vs.len() ==> 0 <= #[trigger] index_of(vs, vs[j].base) < j,
    ensures
        content(ws, seed, i) == content(vs, seed, i),
    decreases i,
{
    if i > 0 {
        let b = index_of(vs, vs[i].base);
        assert(0 <= b < i);
        assert(has_id(vs, vs[i].base));
        lemma_index_of_present(vs, vs[i].base);
        assert(ws[b].id == ws[i].base);
        lemma_index_of(ws, b);
        lemma_content_prefix(vs, ws, seed, b);
    }
}

/// Where each base stands once index `k` is removed from a tree.
proof fn lemma_without_shape(vs: Seq<VersionView>, seed: Seq<u8>, k: int)
    requires
        tree_shaped(vs),
        0 < k < vs.len(),
    ensures
        tree_shaped(without(vs, seed, k)),
        forall|j: int|
            0 < j < vs.len() - 1 ==> #[trigger] index_of(
                without(vs, seed, k),
                without(vs, seed, k)[j].base,
            ) == if vs[old_index(k, j)].base == vs[k].id {
                index_of(vs, vs[k].base)
            } else {
                new_index(k, index_of(vs, vs[old_index(k, j)].base))
            },
{
    let ws = without(vs, seed, k);
    let pk = index_of(vs, vs[k].base);
    lemma_index_of_present(vs, vs[k].base);
    assert(ws[0] == vs[0]) by {
        if vs[0].base == vs[k].id {
            assert(vs[0].id < vs[k].id);
        }
    }
    assert(ids_increasing(ws)) by {
        assert forall|i: int, j: int| 0 <= i < j < ws.len() implies ws[i].id < ws[j].id by {
            assert(vs[old_index(k, i)].id < vs[old_index(k, j)].id);
        }
    }
    assert(ws[pk].id == vs[k].base) by {
        assert(vs[pk].id == vs[k].base);
    }
    assert forall|j: int| 0 < j < ws.len() implies #[trigger] index_of(ws, ws[j].base) == if vs[old_index(k, j)].base == vs[k].id {
        pk
    } else {
        new_index(k, index_of(vs, vs[old_index(k, j)].base))
    } && 0 <= index_of(ws, ws[j].base) < j by {
        let o = old_index(k, j);
        let ob = index_of(vs, vs[o].base);
        lemma_index_of_present(vs, vs[o].base);
        if vs[o].base == vs[k].id {
            lemma_index_of(vs, k);
            lemma_index_of(ws, pk);
        } else {
            assert(ob != k);
            assert(ws[new_index(k, ob)].id == vs[ob].id);
            lemma_index_of(ws, new_index(k, ob));
        }
    }
}

/// Removing index `k` from a tree keeps the content of every other version.
proof fn lemma_without_content(vs: Seq<VersionView>, seed: Seq<u8>, k: int, j: int)
    requires
        tree_shaped(vs),
        0 < k < vs.len(),
        forall|i: int| 0 <= i < vs.len() ==> (#[trigger] content(vs, seed, i)).is_some(),
        0 <= j < vs.len() - 1,
    ensures
        content(without(vs, seed, k), seed, j) == content(vs, seed, old_index(k, j)),
    decreases j,
{
    let ws = without(vs, seed, k);
    lemma_without_shape(vs, seed, k);
    if j > 0 {
        let o = old_index(k, j);
        let b = index_of(ws, ws[j].base);
        assert(0 <= b < j);
        lemma_without_content(vs, seed, k, b);
        lemma_index_of_present(vs, vs[o].base);
        if vs[o].base == vs[k].id {
            lemma_index_of(vs, k);
            let pk = index_of(vs, vs[k].base);
            lemma_index_of_present(vs, vs[k].base);
            assert(old_index(k, pk) == pk);
            lemma_round_trip(content(vs, seed, pk).unwrap(), content(vs, seed, o).unwrap());
        } else {
            let ob = index_of(vs, vs[o].base);
            assert(ob != k);
            assert(old_index(k, b) == ob);
        }
    }
}

/// Committing keeps a store well formed, and afterwards the current version
/// holds what was committed.
pub proof fn lemma_committed(s: SbvcView, working: Seq<u8>, date: i64)
    requires
        well_formed(s),
        s.next_id < u32::MAX || working == content_of(s, s.current),
    ensures
        well_formed(committed(s, working, date)),
        content_of(committed(s, working, date), committed(s, working, date).current) == working,
{
    let ci = current_index(s);
    lemma_index_of_present(s.versions, s.current);
    if working != content_of(s, s.current) {
        let t = committed(s, working, date);
        let vs = s.versions;
        let ws = t.versions;
        assert(ids_increasing(ws)) by {
            assert forall|i: int, j: int| 0 <= i < j < ws.len() implies ws[i].id < ws[j].id by {
                if j == vs.len() {
                    assert(vs[i].id < s.next_id);
                }
            }
        }
        assert forall|i: int| 0 < i < ws.len() implies 0 <= #[trigger] index_of(ws, ws[i].base) < i by {
            if i < vs.len() {
                let b = index_of(vs, vs[i].base);
                lemma_index_of_present(vs, vs[i].base);
                lemma_index_of(ws, b);
            } else {
                lemma_index_of(ws, ci);
            }
        }
        assert forall|i: int| 0 <= i < vs.len() implies content(ws, s.seed, i) == content(vs, s.seed, i) by {
            lemma_content_prefix(vs, ws, s.seed, i);
        }
        lemma_index_of(ws, ci);
        lemma_index_of(ws, vs.len() as int);
        lemma_round_trip(content_of(s, s.current), working);
        assert(content(ws, s.seed, vs.len() as int) == Some(working));
        assert forall|i: int| 0 <= i < ws.len() implies (#[trigger] content(ws, t.seed, i)).is_some() by {}
        assert forall|i: int| 0 <= i < ws.len() implies (#[trigger] ws[i]).id < t.next_id by {
            if i < vs.len() {
                assert(vs[i].id < s.next_id);
            }
        }
        assert(has_id(ws, t.current));
    }
}

/// Renaming keeps a store well formed and every content as it was.
pub proof fn lemma_renamed(s: SbvcView, name: Seq<char>)
    requires
        well_formed(s),
    ensures
        well_formed(renamed(s, name)),
        forall|i: int|
            0 <= i < s.versions.len() ==> #[trigger] content(renamed(s, name).versions, s.seed, i)
                == content(s.versions, s.seed, i),
{
    let ci = current_index(s);
    lemma_index_of_present(s.versions, s.current);
    let vs = s.versions;
    let ws = renamed(s, name).versions;
    assert(ids_increasing(ws));
    assert forall|i: int| 0 < i < ws.len() implies 0 <= #[trigger] index_of(ws, ws[i].base) < i by {
        let b = index_of(vs, vs[i].base);
        lemma_index_of_present(vs, vs[i].base);
        lemma_index_of(ws, b);
    }
    assert forall|i: int| 0 <= i < ws.len() implies #[trigger] content(ws, s.seed, i) == content(vs, s.seed, i) by {
        lemma_content_prefix(vs, ws, s.seed, i);
    }
    assert forall|i: int| 0 <= i < ws.len() implies (#[trigger] content(ws, s.seed, i)).is_some() by {
        assert(content(ws, s.seed, i) == content(vs, s.seed, i));
    }
    assert forall|i: int| 0 <= i < ws.len() implies (#[trigger] ws[i]).id < s.next_id by {
        assert(vs[i].id < s.next_id);
    }
    assert(ws[ci].id == s.current);
}

/// Removing the current version, where it is not the root, keeps a store
/// well formed and every other version's content as it was.
pub proof fn lemma_deleted(s: SbvcView)
    requires
        well_formed(s),
        s.current != s.versions[0].id,
    ensures
        well_formed(deleted(s)),
        forall|j: int|
            0 <= j < deleted(s).versions.len() ==> #[trigger] content(deleted(s).versions, s.seed, j)
                == content(s.versions, s.seed, old_index(current_index(s), j)),
{
    let vs = s.versions;
    let k = current_index(s);
    lemma_index_of_present(vs, s.current);
    lemma_index_of(vs, 0);
    assert(0 <= index_of(vs, vs[k].base) < k);
    let pk = index_of(vs, vs[k].base);
    lemma_index_of_present(vs, vs[k].base);
    let ws = deleted(s).versions;
    lemma_without_shape(vs, s.seed, k);
    assert forall|j: int| 0 <= j < ws.len() implies #[trigger] content(ws, s.seed, j) == content(vs, s.seed, old_index(k, j)) by {
        lemma_without_content(vs, s.seed, k, j);
    }
    assert forall|j: int| 0 <= j < ws.len() implies (#[trigger] content(ws, s.seed, j)).is_some() by {
        assert(content(ws, s.seed, j) == content(vs, s.seed, old_index(k, j)));
    }
    assert forall|j: int| 0 <= j < ws.len() implies (#[trigger] ws[j]).id < s.next_id by {
        assert(vs[old_index(k, j)].id < s.next_id);
    }
    assert(ws[pk].id == vs[k].base) by {
        if vs[pk].base == s.current {
            lemma_index_of(vs, k);
        }
    }
    assert(has_id(ws, vs[k].base));
}

/// Two byte buffers hold the same bytes.
fn same_bytes(a: &Vec<u8>, b: &Vec<u8>) -> (r: bool)
    ensures
        r == (a@ == b@),
{
    if a.len() != b.len() {
        return false;
    }
    let mut i: usize = 0;
    while i < a.len()
        invariant
            i <= a@.len() == b@.len(),
            forall|j: int| 0 <= j < i ==> a@[j] == b@[j],
        decreases a@.len() - i,
    {
        if a[i] != b[i] {
            return false;
        }
        i = i + 1;
    }
    assert(a@ =~= b@);
    true
}

/// Whether `name` holds only whitespace.
fn is_blank(name: &String) -> (r: bool)
    ensures
        r == blank(name@),
{
    let s = name.as_str();
    let n = s.unicode_len();
    let mut i: usize = 0;
    while i < n
        invariant
            i <= n == s@.len(),
            s@ == name@,
            forall|j: int| 0 <= j < i ==> is_space(#[trigger] s@[j]),
        decreases n - i,
    {
        let c = s.get_char(i);
        if !(c == ' ' || c == '\t' || c == '\n' || c == '\r') {
            return false;
        }
        i = i + 1;
    }
    true
}

/// The history of one working file.
#[derive(Debug)]
pub struct Sbvc {
    versions: Vec<Version>,
    current: u32,
    seed: Vec<u8>,
    file: String,
    next_id: u32,
}

impl View for Sbvc {
    type V = SbvcView;

    closed spec fn view(&self) -> SbvcView {
        SbvcView {
            versions: views(self.versions@),
            current: self.current,
            seed: self.seed@,
            file: self.file@,
            next_id: self.next_id,
        }
    }
}

impl Sbvc {
    /// Where the version with `id` stands.
    fn find(&self, id: u32) -> (r: Option<usize>)
        requires
            ids_increasing(self@.versions),
        ensures
            match r {
                Some(i) => i < self@.versions.len() && index_of(self@.versions, id) == i
                    && self@.versions[i as int].id == id,
                None => !has_id(self@.versions, id),
            },
    {
        let mut i: usize = 0;
        while i < self.versions.len()
            invariant
                i <= self@.versions.len(),
                ids_increasing(self@.versions),
                self@.versions.len() == self.versions@.len(),
                forall|j: int| 0 <= j < i ==> (#[trigger] self@.versions[j]).id != id,
            decreases self.versions@.len() - i,
        {
            if self.versions[i].id == id {
                proof {
                    assert(self@.versions[i as int] == self.versions@[i as int]@);
                    lemma_index_of(self@.versions, i as int);
                }
                return Some(i);
            }
            assert(self@.versions[i as int] == self.versions@[i as int]@);
            i = i + 1;
        }
        None
    }

    /// The content of the version at index `i`.
    fn content_at(&self, i: usize) -> (r: Vec<u8>)
        requires
            well_formed(self@),
            i < self@.versions.len(),
        ensures
            r@ == content(self@.versions, self@.seed, i as int).unwrap(),
        decreases i,
    {
        if i == 0 {
            return copy_bytes(&self.seed);
        }
        proof {
            assert(self@.versions[i as int] == self.versions@[i as int]@);
            lemma_index_of_present(self@.versions, self.versions@[i as int].base);
        }
        let b = self.find(self.versions[i].base).unwrap();
        let c = self.content_at(b);
        match apply(&c, &self.versions[i].difference) {
            Ok(v) => v,
            Err(_) => {
                proof {
                    assert(content(self@.versions, self@.seed, i as int).is_some());
                }
                Vec::new()
            },
        }
    }

    /// A fresh history of the file at `file`, whose content is `seed`: the
    /// root version alone, with id 1, current.
    pub fn new(file: String, seed: Vec<u8>, date: i64) -> (r: Sbvc)
        ensures
            well_formed(r@),
            r@.versions == seq![
                VersionView {
                    id: 1,
                    base: 1,
                    name: "Initial version"@,
                    date: date,
                    difference: no_change(),
                },
            ],
            r@.current == 1,
            r@.seed == seed@,
            r@.file == file@,
            r@.next_id == 2,
    {
        let root = Version {
            id: 1,
            base: 1,
            name: String::from_str("Initial version"),
            date,
            difference: Difference { deletions: Vec::new(), insertions: Vec::new() },
        };
        let mut versions: Vec<Version> = Vec::new();
        versions.push(root);
        let r = Sbvc { versions, current: 1, seed, file, next_id: 2 };
        proof {
            assert(r@.versions[0].difference.deletions =~= no_change().deletions);
            assert(r@.versions[0].difference.insertions =~= no_change().insertions);
            assert(r@.versions =~= seq![
                VersionView {
                    id: 1,
                    base: 1,
                    name: "Initial version"@,
                    date: date,
                    difference: no_change(),
                },
            ]);
            assert(has_id(r@.versions, 1));
            assert(content(r@.versions, r@.seed, 0).is_some());
        }
        r
    }

    /// All versions, in creation order.
    pub fn versions(&self) -> (r: &Vec<Version>)
        ensures
            views(r@) == self@.versions,
    {
        &self.versions
    }

    /// The id of the current version.
    pub fn current_id(&self) -> (r: u32)
        ensures
            r == self@.current,
    {
        self.current
    }

    /// The current version.
    pub fn current(&self) -> (r: &Version)
        requires
            well_formed(self@),
        ensures
            r@ == self@.versions[index_of(self@.versions, self@.current)],
    {
        let i = self.find(self.current).unwrap();
        &self.versions[i]
    }

    /// The path of the working file.
    pub fn file(&self) -> (r: &String)
        ensures
            r@ == self@.file,
    {
        &self.file
    }

    /// The content the history started from.
    pub fn seed(&self) -> (r: &Vec<u8>)
        ensures
            r@ == self@.seed,
    {
        &self.seed
    }

    /// The id the next commit will take.
    pub fn next_id(&self) -> (r: u32)
        ensures
            r == self@.next_id,
    {
        self.next_id
    }

    /// Tracks another file; versions and the current pointer stay.
    pub fn set_file(&mut self, file: String)
        ensures
            final(self)@ == (SbvcView { file: file@, ..old(self)@ }),
    {
        self.file = file;
    }

    /// Whether `working`, what the working file holds, differs from the
    /// content of the current version.
    pub fn is_changed(&self, working: &Vec<u8>) -> (r: bool)
        requires
            well_formed(self@),
        ensures
            r == (working@ != content_of(self@, self@.current)),
    {
        let i = self.find(self.current).unwrap();
        let c = self.content_at(i);
        !same_bytes(&c, working)
    }

    /// What the working file must hold to drop its uncommitted edits: the
    /// content of the current version. Nothing in the store changes.
    pub fn rollback(&self) -> (r: Vec<u8>)
        requires
            well_formed(self@),
        ensures
            r@ == content_of(self@, self@.current),
    {
        let i = self.find(self.current).unwrap();
        self.content_at(i)
    }

    /// Records `working`, what the working file holds, as a new version on
    /// top of the current one, and makes it current; returns the current id
    /// afterwards. Where `working` equals the current content nothing is
    /// recorded and the store is left as it is.
    pub fn commit(&mut self, working: &Vec<u8>, date: i64) -> (r: u32)
        requires
            well_formed(old(self)@),
            old(self)@.next_id < u32::MAX || working@ == content_of(old(self)@, old(self)@.current),
        ensures
            well_formed(final(self)@),
            final(self)@ == committed(old(self)@, working@, date),
            r == final(self)@.current,
            content_of(final(self)@, r) == working@,
    {
        let ci = self.find(self.current).unwrap();
        let c = self.content_at(ci);
        if same_bytes(&c, working) {
            return self.current;
        }
        let ghost s0 = self@;
        let id = self.next_id;
        let v = Version {
            id,
            base: self.current,
            name: String::from_str("Untitled"),
            date,
            difference: diff(&c, working),
        };
        self.versions.push(v);
        self.current = id;
        self.next_id = id + 1;
        proof {
            assert(self@.versions =~= committed(s0, working@, date).versions);
            lemma_committed(s0, working@, date);
        }
        id
    }

    /// Makes the version with `id` current and returns the content the
    /// working file must be set to. Where `working`, what the working file
    /// holds, has edits that the current version lacks, this is refused
    /// unless `discard` is set; nothing changes on a refusal.
    pub fn checkout(&mut self, id: u32, discard: bool, working: &Vec<u8>) -> (r: Result<
        Vec<u8>,
        Error,
    >)
        requires
            well_formed(old(self)@),
        ensures
            well_formed(final(self)@),
            !has_id(old(self)@.versions, id) ==> r == Err::<Vec<u8>, Error>(Error::UnknownVersion),
            has_id(old(self)@.versions, id) && !discard && working@ != content_of(
                old(self)@,
                old(self)@.current,
            ) ==> r == Err::<Vec<u8>, Error>(Error::UncommittedChanges),
            r is Err ==> final(self)@ == old(self)@,
            has_id(old(self)@.versions, id) && (discard || working@ == content_of(
                old(self)@,
                old(self)@.current,
            )) ==> r is Ok,
            match r {
                Ok(v) => v@ == content_of(old(self)@, id) && final(self)@ == (SbvcView {
                    current: id,
                    ..old(self)@
                }),
                Err(_) => true,
            },
    {
        let t = match self.find(id) {
            Some(t) => t,
            None => return Err(Error::UnknownVersion),
        };
        if !discard && self.is_changed(working) {
            return Err(Error::UncommittedChanges);
        }
        let v = self.content_at(t);
        self.current = id;
        Ok(v)
    }

    /// Gives the current version a new name; a blank name is refused and
    /// changes nothing.
    pub fn rename(&mut self, name: String) -> (r: Result<(), Error>)
        requires
            well_formed(old(self)@),
        ensures
            well_formed(final(self)@),
            blank(name@) ==> r == Err::<(), Error>(Error::EmptyName) && final(self)@ == old(self)@,
            !blank(name@) ==> r is Ok && final(self)@ == renamed(old(self)@, name@),
    {
        if is_blank(&name) {
            return Err(Error::EmptyName);
        }
        let ghost s0 = self@;
        let ci = self.find(self.current).unwrap();
        self.versions[ci].name = name;
        proof {
            assert(self@.versions =~= renamed(s0, name@).versions);
            lemma_renamed(s0, name@);
        }
        Ok(())
    }

    /// Removes the current version. Each version whose base it was is moved
    /// onto its base, keeping its content; its base becomes current, and the
    /// returned content is what the working file must be set to. The root
    /// cannot be removed.
    pub fn delete(&mut self) -> (r: Result<Vec<u8>, Error>)
        requires
            well_formed(old(self)@),
        ensures
            well_formed(final(self)@),
            old(self)@.current == old(self)@.versions[0].id ==> r == Err::<Vec<u8>, Error>(
                Error::CannotDeleteRoot,
            ) && final(self)@ == old(self)@,
            old(self)@.current != old(self)@.versions[0].id ==> {
                &&& r matches Ok(v) && v@ == content_of(old(self)@, current_base(old(self)@))
                &&& final(self)@ == deleted(old(self)@)
                &&& forall|j: int|
                    0 <= j < final(self)@.versions.len() ==> #[trigger] content(
                        final(self)@.versions,
                        final(self)@.seed,
                        j,
                    ) == content(old(self)@.versions, old(self)@.seed, old_index(current_index(old(self)@), j))
            },
    {
        let k = self.find(self.current).unwrap();
        proof {
            lemma_index_of(self@.versions, 0);
        }
        if k == 0 {
            return Err(Error::CannotDeleteRoot);
        }
        let ghost s0 = self@;
        let gone = self.current;
        let parent = self.versions[k].base;
        proof {
            assert(self@.versions[k as int] == self.versions@[k as int]@);
            assert(0 <= index_of(self@.versions, self@.versions[k as int].base) < k);
            lemma_index_of_present(self@.versions, parent);
        }
        let pk = self.find(parent).unwrap();
        let pc = self.content_at(pk);
        let mut out: Vec<Version> = Vec::new();
        let mut i: usize = 0;
        while i < self.versions.len()
            invariant
                well_formed(self@),
                self@ == s0,
                0 < k < self@.versions.len() == self.versions@.len(),
                self@.versions[k as int].id == gone,
                self@.versions[k as int].base == parent,
                index_of(self@.versions, parent) == pk,
                pc@ == content(self@.versions, self@.seed, pk as int).unwrap(),
                i <= self.versions@.len(),
                out@.len() == if i <= k { i as int } else { i - 1 },
                forall|j: int|
                    0 <= j < out@.len() ==> (#[trigger] out@[j])@ == relinked(
                        s0.versions,
                        s0.seed,
                        k as int,
                        old_index(k as int, j),
                    ),
            decreases self.versions@.len() - i,
        {
            if i != k {
                let v = &self.versions[i];
                proof {
                    assert(self@.versions[i as int] == self.versions@[i as int]@);
                }
                if v.base == gone {
                    let c = self.content_at(i);
                    out.push(
                        Version {
                            id: v.id,
                            base: parent,
                            name: v.name.clone(),
                            date: v.date,
                            difference: diff(&pc, &c),
                        },
                    );
                } else {
                    out.push(v.duplicate());
                }
            }
            i = i + 1;
        }
        self.versions = out;
        self.current = parent;
        proof {
            assert(self@.versions =~= deleted(s0).versions);
            lemma_deleted(s0);
        }
        Ok(pc)
    }

    /// Builds a store from records read back from disk, and checks every
    /// rule on the way: `MalformedStore` where the records do not form a
    /// tree (no root first, ids out of order, a base that does not stand
    /// earlier), the current id is missing, or an id reaches the counter;
    /// else `CorruptDifference` where some delta does not fit its base.
    #[verifier::loop_isolation(false)]
    pub fn from_parts(versions: Vec<Version>, current: u32, seed: Vec<u8>, file: String, next_id: u32) -> (r: Result<Sbvc, Error>)
        ensures
            !shaped(parts(versions@, current, seed@, file@, next_id)) ==> r == Err::<Sbvc, Error>(
                Error::MalformedStore,
            ),
            shaped(parts(versions@, current, seed@, file@, next_id)) && !well_formed(
                parts(versions@, current, seed@, file@, next_id),
            ) ==> r == Err::<Sbvc, Error>(Error::CorruptDifference),
            well_formed(parts(versions@, current, seed@, file@, next_id)) ==> (r matches Ok(t) && t@
                == parts(versions@, current, seed@, file@, next_id)),
    {
        let ghost vs0 = views(versions@);
        let ghost p0 = parts(versions@, current, seed@, file@, next_id);
        let st = Sbvc { versions, current, seed, file, next_id };
        let n = st.versions.len();
        proof {
            assert(st@ == parts(versions@, current, seed@, file@, next_id));
            assert(st@.versions == vs0);
            assert(vs0.len() == n);
        }
        if n == 0 {
            proof {
                assert(!tree_shaped(vs0));
            }
            return Err(Error::MalformedStore);
        }
        proof {
            assert(st@.versions[0] == st.versions@[0]@);
        }
        if st.versions[0].base != st.versions[0].id || st.versions[0].difference.deletions.len() != 0
            || st.versions[0].difference.insertions.len() != 0 {
            proof {
                if st@.versions[0].difference == no_change() {
                    assert(st@.versions[0].difference.deletions.len() == 0);
                    assert(st@.versions[0].difference.insertions.len() == 0);
                }
                assert(!shaped(st@));
            }
            return Err(Error::MalformedStore);
        }
        proof {
            assert(st@.versions[0].difference.deletions =~= no_change().deletions);
            assert(st@.versions[0].difference.insertions =~= no_change().insertions);
        }
        let mut i: usize = 1;
        while i < n
            invariant
                1 <= i <= n == st@.versions.len() == st.versions@.len(),
                st@ == p0,
                forall|a: int, b: int| 0 <= a < b < i ==> st@.versions[a].id < st@.versions[b].id,
            decreases n - i,
        {
            proof {
                assert(st@.versions[i - 1] == st.versions@[i - 1]@);
                assert(st@.versions[i as int] == st.versions@[i as int]@);
            }
            if st.versions[i - 1].id >= st.versions[i].id {
                proof {
                    assert(!ids_increasing(st@.versions));
                    assert(!shaped(st@));
                }
                return Err(Error::MalformedStore);
            }
            i = i + 1;
        }
        proof {
            assert(st@.versions[n - 1] == st.versions@[n - 1]@);
        }
        if st.versions[n - 1].id >= st.next_id {
            proof {
                assert(!(st@.versions[n - 1].id < next_id));
            }
            return Err(Error::MalformedStore);
        }
        assert forall|a: int| 0 <= a < n implies (#[trigger] st@.versions[a]).id < next_id by {
            if a < n - 1 {
                assert(st@.versions[a].id < st@.versions[n - 1].id);
            }
        }
        let mut k: usize = 1;
        while k < n
            invariant
                1 <= k <= n == st@.versions.len() == st.versions@.len(),
                st@ == p0,
                ids_increasing(st@.versions),
                forall|a: int| 0 < a < k ==> 0 <= #[trigger] index_of(st@.versions, st@.versions[a].base) < a,
            decreases n - k,
        {
            proof {
                assert(st@.versions[k as int] == st.versions@[k as int]@);
            }
            let b = match st.find(st.versions[k].base) {
                Some(b) => b,
                None => {
                    proof {
                        assert(index_of(st@.versions, st@.versions[k as int].base) == -1);
                        assert(!shaped(st@));
                    }
                    return Err(Error::MalformedStore);
                },
            };
            if b >= k {
                proof {
                    assert(!(0 <= index_of(st@.versions, st@.versions[k as int].base) < k));
                    assert(!shaped(st@));
                }
                return Err(Error::MalformedStore);
            }
            k = k + 1;
        }
        if st.find(st.current).is_none() {
            return Err(Error::MalformedStore);
        }
        proof {
            assert(shaped(st@));
        }
        let mut cache: Vec<Vec<u8>> = Vec::new();
        cache.push(copy_bytes(&st.seed));
        let mut j: usize = 1;
        while j < n
            invariant
                1 <= j <= n == st@.versions.len() == st.versions@.len(),
                st@ == p0,
                shaped(st@),
                cache@.len() == j,
                forall|a: int|
                    0 <= a < j ==> (#[trigger] content(st@.versions, st@.seed, a)) == Some(cache@[a]@),
            decreases n - j,
        {
            proof {
                assert(st@.versions[j as int] == st.versions@[j as int]@);
            }
            let b = st.find(st.versions[j].base).unwrap();
            proof {
                assert(0 <= index_of(st@.versions, st@.versions[j as int].base) < j);
                assert(content(st@.versions, st@.seed, b as int) == Some(cache@[b as int]@));
                assert(content(st@.versions, st@.seed, j as int) == patched(
                    cache@[b as int]@,
                    st@.versions[j as int].difference,
                ));
            }
            match apply(&cache[b], &st.versions[j].difference) {
                Ok(c) => {
                    cache.push(c);
                    proof {
                        assert(content(st@.versions, st@.seed, j as int) == Some(cache@[j as int]@));
                    }
                },
                Err(_) => {
                    proof {
                        assert(content(st@.versions, st@.seed, j as int).is_none());
                        assert(!well_formed(st@));
                    }
                    return Err(Error::CorruptDifference);
                },
            }
            j = j + 1;
        }
        Ok(st)
    }

    /// Replays the delta chain from the root to the version with `id`.
    pub fn reconstruct(&self, id: u32) -> (r: Result<Vec<u8>, Error>)
        requires
            well_formed(self@),
        ensures
            match r {
                Ok(v) => has_id(self@.versions, id) && v@ == content_of(self@, id),
                Err(e) => e == Error::UnknownVersion && !has_id(self@.versions, id),
            },
    {
        match self.find(id) {
            Some(i) => Ok(self.content_at(i)),
            None => Err(Error::UnknownVersion),
        }
    }
}

} // verus!
