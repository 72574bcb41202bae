//! The delta codec: a difference between two byte buffers, how to compute
//! one, and how to replay one on the older buffer.
use vstd::prelude::*;

use crate::error::Error;

verus! {

/// Removes `len` bytes starting at `start`.
#[derive(Clone, Copy, Debug, PartialEq, Eq, Structural)]
pub struct Deletion {
    pub start: usize,
    pub len: usize,
}

/// Puts `content` in front of the byte at `at` (or at the end when `at` is
/// the length).
#[derive(Clone, Debug)]
pub struct Insertion {
    pub at: usize,
    pub content: Vec<u8>,
}

/// A delta from one buffer to another. The deletions are replayed first, in
/// order, each on the buffer the previous one left; the insertions follow in
/// the same way.
#[derive(Clone, Debug)]
pub struct Difference {
    pub deletions: Vec<Deletion>,
    pub insertions: Vec<Insertion>,
}

/// The mathematical form of a `Difference`: `(start, len)` per deletion and
/// `(at, content)` per insertion.
pub struct DiffView {
    pub deletions: Seq<(int, int)>,
    pub insertions: Seq<(int, Seq<u8>)>,
}

impl View for Difference {
    type V = DiffView;

    open spec fn view(&self) -> DiffView {
        DiffView {
            deletions: self.deletions@.map_values(|d: Deletion| (d.start as int, d.len as int)),
            insertions: self.insertions@.map_values(|i: Insertion| (i.at as int, i.content@)),
        }
    }
}

/// The empty delta.
pub open spec fn no_change() -> DiffView {
    DiffView { deletions: Seq::empty(), insertions: Seq::empty() }
}

/// `s` without the `len` bytes at `start`, if they lie inside `s`.
pub open spec fn cut(s: Seq<u8>, start: int, len: int) -> Option<Seq<u8>> {
    if 0 <= start && 0 <= len && start + len <= s.len() {
        Some(s.subrange(0, start) + s.subrange(start + len, s.len() as int))
    } else {
        None
    }
}

/// `s` with `c` placed in front of position `at`, if `at` lies inside `s`.
pub open spec fn splice(s: Seq<u8>, at: int, c: Seq<u8>) -> Option<Seq<u8>> {
    if 0 <= at <= s.len() {
        Some(s.subrange(0, at) + c + s.subrange(at, s.len() as int))
    } else {
        None
    }
}

/// The buffer left by the first `n` deletions of `ds`, replayed on `s`.
pub open spec fn cut_all(s: Seq<u8>, ds: Seq<(int, int)>, n: int) -> Option<Seq<u8>>
    decreases n,
{
    if n <= 0 {
        Some(s)
    } else {
        match cut_all(s, ds, n - 1) {
            Some(t) => cut(t, ds[n - 1].0, ds[n - 1].1),
            None => None,
        }
    }
}

/// The buffer left by the first `n` insertions of `is`, replayed on `s`.
pub open spec fn splice_all(s: Seq<u8>, is: Seq<(int, Seq<u8>)>, n: int) -> Option<Seq<u8>>
    decreases n,
{
    if n <= 0 {
        Some(s)
    } else {
        match splice_all(s, is, n - 1) {
            Some(t) => splice(t, is[n - 1].0, is[n - 1].1),
            None => None,
        }
    }
}

/// What replaying `d` on `s` gives; `None` where an edit falls outside the
/// buffer it meets.
pub open spec fn patched(s: Seq<u8>, d: DiffView) -> Option<Seq<u8>> {
    match cut_all(s, d.deletions, d.deletions.len() as int) {
        Some(t) => splice_all(t, d.insertions, d.insertions.len() as int),
        None => None,
    }
}

/// The first index at or after `i` where `a` and `b` stop agreeing.
pub open spec fn agree_from(a: Seq<u8>, b: Seq<u8>, i: int) -> int
    decreases a.len() - i,
{
    if 0 <= i < a.len() && i < b.len() && a[i] == b[i] {
        agree_from(a, b, i + 1)
    } else {
        i
    }
}

/// How many trailing bytes, counting on from `k` and at most `limit`, `a`
/// and `b` share.
pub open spec fn agree_back(a: Seq<u8>, b: Seq<u8>, k: int, limit: int) -> int
    decreases limit - k,
{
    if 0 <= k < limit && a[a.len() - 1 - k] == b[b.len() - 1 - k] {
        agree_back(a, b, k + 1, limit)
    } else {
        k
    }
}

/// The length of the longest common prefix of `a` and `b`.
pub open spec fn head_len(a: Seq<u8>, b: Seq<u8>) -> int {
    agree_from(a, b, 0)
}

/// The length of the longest common suffix of `a` and `b` that does not
/// overlap their common prefix.
pub open spec fn tail_len(a: Seq<u8>, b: Seq<u8>) -> int {
    let p = head_len(a, b);
    let limit = if a.len() < b.len() { a.len() - p } else { b.len() - p };
    agree_back(a, b, 0, limit)
}

/// The delta that `diff` computes: the bytes between the common prefix and
/// the common suffix of `a` are cut, and those of `b` put in their place.
/// An empty cut or an empty insertion is left out.
pub open spec fn delta(a: Seq<u8>, b: Seq<u8>) -> DiffView {
    let p = head_len(a, b);
    let s = tail_len(a, b);
    let gone = a.len() - p - s;
    let added = b.subrange(p, b.len() - s);
    DiffView {
        deletions: if gone > 0 { seq![(p, gone)] } else { Seq::empty() },
        insertions: if added.len() > 0 { seq![(p, added)] } else { Seq::empty() },
    }
}

proof fn lemma_agree_from(a: Seq<u8>, b: Seq<u8>, i: int)
    requires
        0 <= i,
    ensures
        i <= agree_from(a, b, i),
        agree_from(a, b, i) <= i || agree_from(a, b, i) <= a.len(),
        agree_from(a, b, i) <= i || agree_from(a, b, i) <= b.len(),
        forall|j: int| i <= j < agree_from(a, b, i) ==> a[j] == b[j],
    decreases a.len() - i,
{
    if 0 <= i < a.len() && i < b.len() && a[i] == b[i] {
        lemma_agree_from(a, b, i + 1);
    }
}

proof fn lemma_agree_back(a: Seq<u8>, b: Seq<u8>, k: int, limit: int)
    requires
        0 <= k,
        limit <= a.len(),
        limit <= b.len(),
    ensures
        k <= agree_back(a, b, k, limit),
        agree_back(a, b, k, limit) <= k || agree_back(a, b, k, limit) <= limit,
        forall|j: int|
            k <= j < agree_back(a, b, k, limit) ==> #[trigger] a[a.len() - 1 - j] == b[b.len() - 1 - j],
    decreases limit - k,
{
    if 0 <= k < limit && a[a.len() - 1 - k] == b[b.len() - 1 - k] {
        lemma_agree_back(a, b, k + 1, limit);
    }
}

/// Replaying the delta that `diff` computes from `a` to `b` on `a` gives `b`
/// back, for every pair of buffers.
pub proof fn lemma_round_trip(a: Seq<u8>, b: Seq<u8>)
    ensures
        patched(a, delta(a, b)) == Some(b),
{
    let p = head_len(a, b);
    lemma_agree_from(a, b, 0);
    let limit = if a.len() < b.len() { a.len() - p } else { b.len() - p };
    lemma_agree_back(a, b, 0, limit);
    let s = tail_len(a, b);
    let d = delta(a, b);
    let gone = a.len() - p - s;
    let added = b.subrange(p, b.len() - s);
    let kept = a.subrange(0, p) + a.subrange(p + gone, a.len() as int);
    assert(cut_all(a, d.deletions, d.deletions.len() as int) == Some(kept)) by {
        if gone > 0 {
            assert(cut_all(a, d.deletions, 0) == Some(a));
        } else {
            assert(a.subrange(p + gone, a.len() as int) =~= a.subrange(p, a.len() as int));
            assert(a =~= kept);
        }
    }
    assert(kept.subrange(0, p) =~= b.subrange(0, p));
    assert(kept.subrange(p, kept.len() as int) =~= a.subrange(a.len() - s, a.len() as int));
    assert(a.subrange(a.len() - s, a.len() as int) =~= b.subrange(b.len() - s, b.len() as int)) by {
        assert(0 <= s <= limit);
        assert(limit <= a.len() && limit <= b.len());
        let ta = a.subrange(a.len() - s, a.len() as int);
        let tb = b.subrange(b.len() - s, b.len() as int);
        assert forall|j: int| 0 <= j < s implies #[trigger] ta[j] == tb[j] by {
            let k = s - 1 - j;
            assert(a[a.len() - 1 - k] == b[b.len() - 1 - k]);
        }
    }
    assert(b =~= kept.subrange(0, p) + added + kept.subrange(p, kept.len() as int));
    if added.len() > 0 {
        assert(splice_all(kept, d.insertions, 0) == Some(kept));
    } else {
        assert(kept =~= b);
    }
}

/// Appends `src[from..to]` to `out`.
fn push_range(out: &mut Vec<u8>, src: &Vec<u8>, from: usize, to: usize)
    requires
        from <= to <= src@.len(),
    ensures
        final(out)@ == old(out)@ + src@.subrange(from as int, to as int),
{
    let mut i: usize = from;
    while i < to
        invariant
            from <= i <= to <= src@.len(),
            out@ == old(out)@ + src@.subrange(from as int, i as int),
        decreases to - i,
    {
        out.push(src[i]);
        i = i + 1;
        assert(out@ =~= old(out)@ + src@.subrange(from as int, i as int));
    }
}

/// A copy of `src`.
pub fn copy_bytes(src: &Vec<u8>) -> (r: Vec<u8>)
    ensures
        r@ == src@,
{
    let mut out: Vec<u8> = Vec::new();
    push_range(&mut out, src, 0, src.len());
    assert(out@ =~= src@);
    out
}

/// A copy of a difference, edit for edit.
pub fn copy_difference(d: &Difference) -> (r: Difference)
    ensures
        r@ == d@,
{
    let mut deletions: Vec<Deletion> = Vec::new();
    let mut i: usize = 0;
    while i < d.deletions.len()
        invariant
            i <= d.deletions@.len(),
            deletions@ == d.deletions@.subrange(0, i as int),
        decreases d.deletions@.len() - i,
    {
        deletions.push(d.deletions[i]);
        i = i + 1;
        assert(deletions@ =~= d.deletions@.subrange(0, i as int));
    }
    let mut insertions: Vec<Insertion> = Vec::new();
    let mut j: usize = 0;
    while j < d.insertions.len()
        invariant
            j <= d.insertions@.len(),
            insertions@.len() == j,
            forall|k: int|
                0 <= k < j ==> (#[trigger] insertions@[k]).at == d.insertions@[k].at
                    && insertions@[k].content@ == d.insertions@[k].content@,
        decreases d.insertions@.len() - j,
    {
        let ins = &d.insertions[j];
        insertions.push(Insertion { at: ins.at, content: copy_bytes(&ins.content) });
        j = j + 1;
    }
    let r = Difference { deletions, insertions };
    assert(r@.deletions =~= d@.deletions);
    assert(r@.insertions =~= d@.insertions);
    r
}

/// Computes the delta from `old` to `new`: the bytes between their longest
/// common prefix and their longest common suffix are replaced, in one
/// deletion and one insertion at most. Equal inputs give the empty delta.
#[verifier::rlimit(40)]
pub fn diff(old: &Vec<u8>, new: &Vec<u8>) -> (r: Difference)
    ensures
        r@ == delta(old@, new@),
        patched(old@, r@) == Some(new@),
        old@ == new@ ==> r@ == no_change(),
{
    let a = old;
    let b = new;
    proof {
        lemma_agree_from(a@, b@, 0);
        lemma_round_trip(a@, b@);
    }
    let mut p: usize = 0;
    while p < a.len() && p < b.len() && a[p] == b[p]
        invariant
            p <= a@.len(),
            p <= b@.len(),
            agree_from(a@, b@, p as int) == head_len(a@, b@),
        decreases a@.len() - p,
    {
        p = p + 1;
    }
    let limit: usize = if a.len() < b.len() { a.len() - p } else { b.len() - p };
    let mut s: usize = 0;
    while s < limit && a[a.len() - 1 - s] == b[b.len() - 1 - s]
        invariant
            s <= limit,
            p + limit <= a@.len(),
            p + limit <= b@.len(),
            limit == (if a@.len() < b@.len() { a@.len() - p } else { b@.len() - p }),
            agree_back(a@, b@, s as int, limit as int) == tail_len(a@, b@),
        decreases limit - s,
    {
        s = s + 1;
    }
    let gone: usize = a.len() - p - s;
    let mut deletions: Vec<Deletion> = Vec::new();
    if gone > 0 {
        deletions.push(Deletion { start: p, len: gone });
    }
    let mut insertions: Vec<Insertion> = Vec::new();
    if b.len() - s > p {
        let mut added: Vec<u8> = Vec::new();
        push_range(&mut added, b, p, b.len() - s);
        insertions.push(Insertion { at: p, content: added });
    }
    let r = Difference { deletions, insertions };
    proof {
        let d = delta(a@, b@);
        assert(r@.deletions =~= d.deletions);
        assert(r@.insertions =~= d.insertions);
        if a@ == b@ {
            assert(head_len(a@, b@) == a@.len()) by {
                lemma_agree_from_equal(a@, 0);
            }
            assert(r@.deletions =~= no_change().deletions);
            assert(r@.insertions =~= no_change().insertions);
        }
    }
    r
}

proof fn lemma_agree_from_equal(a: Seq<u8>, i: int)
    requires
        0 <= i <= a.len(),
    ensures
        agree_from(a, a, i) == a.len(),
    decreases a.len() - i,
{
    if i < a.len() {
        lemma_agree_from_equal(a, i + 1);
    }
}

/// Replays `d` on `base`. Fails with `CorruptDifference` exactly where an
/// edit reaches outside the buffer it is replayed on.
pub fn apply(base: &Vec<u8>, d: &Difference) -> (r: Result<Vec<u8>, Error>)
    ensures
        match r {
            Ok(v) => patched(base@, d@) == Some(v@),
            Err(e) => e == Error::CorruptDifference && patched(base@, d@).is_none(),
        },
{
    let mut cur = copy_bytes(base);
    let mut i: usize = 0;
    while i < d.deletions.len()
        invariant
            i <= d.deletions@.len(),
            cut_all(base@, d@.deletions, i as int) == Some(cur@),
        decreases d.deletions@.len() - i,
    {
        let del = d.deletions[i];
        if del.start > cur.len() || del.len > cur.len() - del.start {
            proof {
                lemma_cut_all_stuck(base@, d@.deletions, i as int + 1, d@.deletions.len() as int);
            }
            return Err(Error::CorruptDifference);
        }
        let mut next: Vec<u8> = Vec::new();
        push_range(&mut next, &cur, 0, del.start);
        push_range(&mut next, &cur, del.start + del.len, cur.len());
        cur = next;
        i = i + 1;
    }
    let mut j: usize = 0;
    while j < d.insertions.len()
        invariant
            j <= d.insertions@.len(),
            cut_all(base@, d@.deletions, d@.deletions.len() as int).is_some(),
            splice_all(
                cut_all(base@, d@.deletions, d@.deletions.len() as int).unwrap(),
                d@.insertions,
                j as int,
            ) == Some(cur@),
        decreases d.insertions@.len() - j,
    {
        let ins = &d.insertions[j];
        if ins.at > cur.len() {
            proof {
                lemma_splice_all_stuck(
                    cut_all(base@, d@.deletions, d@.deletions.len() as int).unwrap(),
                    d@.insertions,
                    j as int + 1,
                    d@.insertions.len() as int,
                );
            }
            return Err(Error::CorruptDifference);
        }
        let mut next: Vec<u8> = Vec::new();
        push_range(&mut next, &cur, 0, ins.at);
        push_range(&mut next, &ins.content, 0, ins.content.len());
        push_range(&mut next, &cur, ins.at, cur.len());
        proof {
            assert(ins.content@.subrange(0, ins.content@.len() as int) =~= ins.content@);
        }
        cur = next;
        j = j + 1;
    }
    Ok(cur)
}

proof fn lemma_cut_all_stuck(s: Seq<u8>, ds: Seq<(int, int)>, k: int, n: int)
    requires
        k <= n,
        cut_all(s, ds, k).is_none(),
    ensures
        cut_all(s, ds, n).is_none(),
    decreases n - k,
{
    if k < n {
        lemma_cut_all_stuck(s, ds, k + 1, n);
    }
}

proof fn lemma_splice_all_stuck(s: Seq<u8>, is: Seq<(int, Seq<u8>)>, k: int, n: int)
    requires
        k <= n,
        splice_all(s, is, k).is_none(),
    ensures
        splice_all(s, is, n).is_none(),
    decreases n - k,
{
    if k < n {
        lemma_splice_all_stuck(s, is, k + 1, n);
    }
}

} // verus!
