//! The store file: a whole store written as one byte string, and read back
//! with every field bounds-checked and the tree rules checked again.
//!
//! Integers are little-endian, of 4 bytes (ids) or 8 bytes (counts,
//! offsets, dates); byte strings and UTF-8 text carry an 8-byte length in
//! front.
use vstd::prelude::*;
use vstd::utf8::*;

use crate::diff::{DiffView, Deletion, Difference, Insertion};
use crate::error::Error;
use crate::store::{views, well_formed, Sbvc, SbvcView, Version, VersionView};

verus! {

/// What every store file starts with: "SBVC".
pub open spec fn magic() -> Seq<u8> {
    seq![83u8, 66u8, 86u8, 67u8]
}

/// 256 to the power `n`.
pub open spec fn bound(n: nat) -> nat
    decreases n,
{
    if n == 0 {
        1
    } else {
        256 * bound((n - 1) as nat)
    }
}

/// `x` in `n` little-endian bytes.
pub open spec fn le(x: nat, n: nat) -> Seq<u8>
    decreases n,
{
    if n == 0 {
        Seq::empty()
    } else {
        seq![(x % 256) as u8] + le(x / 256, (n - 1) as nat)
    }
}

/// The number that little-endian bytes `s` spell.
pub open spec fn val(s: Seq<u8>) -> nat
    decreases s.len(),
{
    if s.len() == 0 {
        0
    } else {
        s[0] as nat + 256 * val(s.drop_first())
    }
}

/// A byte string with its length in front.
pub open spec fn blob(b: Seq<u8>) -> Seq<u8> {
    le(b.len(), 8) + b
}

/// Text as its UTF-8 bytes, with their length in front.
pub open spec fn text(c: Seq<char>) -> Seq<u8> {
    blob(encode_utf8(c))
}

/// A date, in two's complement.
pub open spec fn date_image(d: i64) -> Seq<u8> {
    le((d as u64) as nat, 8)
}

pub open spec fn cuts_image(ds: Seq<(int, int)>) -> Seq<u8>
    decreases ds.len(),
{
    if ds.len() == 0 {
        Seq::empty()
    } else {
        cuts_image(ds.drop_last()) + le(ds.last().0 as nat, 8) + le(ds.last().1 as nat, 8)
    }
}

pub open spec fn splices_image(is: Seq<(int, Seq<u8>)>) -> Seq<u8>
    decreases is.len(),
{
    if is.len() == 0 {
        Seq::empty()
    } else {
        splices_image(is.drop_last()) + le(is.last().0 as nat, 8) + blob(is.last().1)
    }
}

pub open spec fn diff_image(d: DiffView) -> Seq<u8> {
    le(d.deletions.len(), 8) + cuts_image(d.deletions) + le(d.insertions.len(), 8)
        + splices_image(d.insertions)
}

pub open spec fn version_image(v: VersionView) -> Seq<u8> {
    le(v.id as nat, 4) + le(v.base as nat, 4) + date_image(v.date) + text(v.name) + diff_image(
        v.difference,
    )
}

pub open spec fn versions_image(vs: Seq<VersionView>) -> Seq<u8>
    decreases vs.len(),
{
    if vs.len() == 0 {
        Seq::empty()
    } else {
        versions_image(vs.drop_last()) + version_image(vs.last())
    }
}

/// The bytes of a whole store.
pub open spec fn image(s: SbvcView) -> Seq<u8> {
    magic() + le(s.current as nat, 4) + le(s.next_id as nat, 4) + blob(s.seed) + text(s.file) + le(
        s.versions.len(),
        8,
    ) + versions_image(s.versions)
}

proof fn lemma_le_len(x: nat, n: nat)
    ensures
        le(x, n).len() == n,
    decreases n,
{
    if n > 0 {
        lemma_le_len(x / 256, (n - 1) as nat);
    }
}

proof fn lemma_val_le(s: Seq<u8>)
    ensures
        le(val(s), s.len()) == s,
        val(s) < bound(s.len()),
    decreases s.len(),
{
    if s.len() > 0 {
        let t = s.drop_first();
        lemma_val_le(t);
        assert((s[0] as nat + 256 * val(t)) % 256 == s[0] as nat);
        assert((s[0] as nat + 256 * val(t)) / 256 == val(t));
        assert(le(val(s), s.len()) =~= s);
    }
}

/// `seg` stands in `b` from `pos` on.
pub open spec fn at(b: Seq<u8>, pos: int, seg: Seq<u8>) -> bool {
    0 <= pos && pos + seg.len() <= b.len() && b.subrange(pos, pos + seg.len()) == seg
}

proof fn lemma_val_of_le(x: nat, n: nat)
    requires
        x < bound(n),
    ensures
        val(le(x, n)) == x,
        le(x, n).len() == n,
    decreases n,
{
    lemma_le_len(x, n);
    if n > 0 {
        assert(x / 256 < bound((n - 1) as nat));
        lemma_val_of_le(x / 256, (n - 1) as nat);
        assert(le(x, n).drop_first() =~= le(x / 256, (n - 1) as nat));
    }
}

/// Two numbers below `bound(n)` that both stand at `pos` in `n` bytes are
/// equal.
proof fn lemma_le_unique(b: Seq<u8>, pos: int, x: nat, y: nat, n: nat)
    requires
        x < bound(n),
        y < bound(n),
        at(b, pos, le(x, n)),
        at(b, pos, le(y, n)),
    ensures
        x == y,
{
    lemma_val_of_le(x, n);
    lemma_val_of_le(y, n);
}

/// A run that stands in `b` splits into its two parts.
proof fn lemma_at_split(b: Seq<u8>, pos: int, s1: Seq<u8>, s2: Seq<u8>)
    requires
        at(b, pos, s1 + s2),
    ensures
        at(b, pos, s1),
        at(b, pos + s1.len(), s2),
{
    let whole = b.subrange(pos, pos + s1.len() + s2.len());
    assert(whole == s1 + s2);
    assert(b.subrange(pos, pos + s1.len()) =~= whole.subrange(0, s1.len() as int));
    assert(whole.subrange(0, s1.len() as int) =~= s1);
    assert(b.subrange(pos + s1.len(), pos + s1.len() + s2.len()) =~= whole.subrange(
        s1.len() as int,
        whole.len() as int,
    ));
    assert(whole.subrange(s1.len() as int, whole.len() as int) =~= s2);
}

/// Anything that stands in `b` is no longer than `b`, so its length fits
/// in eight bytes.
proof fn lemma_at_len(b: Seq<u8>, pos: int, seg: Seq<u8>)
    requires
        at(b, pos, seg),
        b.len() <= usize::MAX,
    ensures
        seg.len() < bound(8),
{
    lemma_bounds();
}

/// At most one byte string stands at `pos` with its length in front.
proof fn lemma_blob_unique(b: Seq<u8>, pos: int, x: Seq<u8>, y: Seq<u8>)
    requires
        at(b, pos, blob(x)),
        at(b, pos, blob(y)),
        b.len() <= usize::MAX,
    ensures
        x == y,
{
    lemma_at_split(b, pos, le(x.len(), 8), x);
    lemma_at_split(b, pos, le(y.len(), 8), y);
    lemma_at_len(b, pos, blob(x));
    lemma_at_len(b, pos, blob(y));
    lemma_le_len(x.len(), 8);
    lemma_le_len(y.len(), 8);
    lemma_le_unique(b, pos, x.len(), y.len(), 8);
}

/// At most one text stands at `pos`.
proof fn lemma_text_unique(b: Seq<u8>, pos: int, x: Seq<char>, y: Seq<char>)
    requires
        at(b, pos, text(x)),
        at(b, pos, text(y)),
        b.len() <= usize::MAX,
    ensures
        x == y,
{
    lemma_blob_unique(b, pos, encode_utf8(x), encode_utf8(y));
    encode_utf8_decode_utf8(x);
    encode_utf8_decode_utf8(y);
}

/// `t` is where `s` starts.
pub open spec fn is_prefix(t: Seq<u8>, s: Seq<u8>) -> bool {
    t.len() <= s.len() && s.subrange(0, t.len() as int) == t
}

proof fn lemma_at_prefix(b: Seq<u8>, pos: int, s: Seq<u8>, t: Seq<u8>)
    requires
        at(b, pos, s),
        is_prefix(t, s),
    ensures
        at(b, pos, t),
{
    assert(b.subrange(pos, pos + t.len()) =~= s.subrange(0, t.len() as int));
}

proof fn lemma_prefix_extend(a: Seq<u8>, t: Seq<u8>, s: Seq<u8>, z: Seq<u8>)
    requires
        is_prefix(t, s),
    ensures
        is_prefix(a + t, a + s + z),
{
    assert((a + s + z).subrange(0, (a + t).len() as int) =~= a + t);
}

proof fn lemma_cuts_prefix(ds: Seq<(int, int)>, k: int)
    requires
        0 <= k <= ds.len(),
    ensures
        is_prefix(cuts_image(ds.subrange(0, k)), cuts_image(ds)),
    decreases ds.len(),
{
    if k == ds.len() {
        assert(ds.subrange(0, k) =~= ds);
        assert(cuts_image(ds).subrange(0, cuts_image(ds).len() as int) =~= cuts_image(ds));
    } else {
        let dl = ds.drop_last();
        assert(cuts_image(ds) == cuts_image(dl) + le(ds.last().0 as nat, 8) + le(ds.last().1 as nat, 8));
        lemma_cuts_prefix(dl, k);
        assert(dl.subrange(0, k) =~= ds.subrange(0, k));
        let t = cuts_image(ds.subrange(0, k));
        assert(cuts_image(ds).subrange(0, t.len() as int) =~= cuts_image(dl).subrange(0, t.len() as int));
    }
}

proof fn lemma_splices_prefix(is: Seq<(int, Seq<u8>)>, k: int)
    requires
        0 <= k <= is.len(),
    ensures
        is_prefix(splices_image(is.subrange(0, k)), splices_image(is)),
    decreases is.len(),
{
    if k == is.len() {
        assert(is.subrange(0, k) =~= is);
        assert(splices_image(is).subrange(0, splices_image(is).len() as int) =~= splices_image(is));
    } else {
        let il = is.drop_last();
        assert(splices_image(is) == splices_image(il) + le(is.last().0 as nat, 8) + blob(is.last().1));
        lemma_splices_prefix(il, k);
        assert(il.subrange(0, k) =~= is.subrange(0, k));
        let t = splices_image(is.subrange(0, k));
        assert(splices_image(is).subrange(0, t.len() as int) =~= splices_image(il).subrange(0, t.len() as int));
    }
}

/// Every offset and count of `d` fits in `usize`.
pub open spec fn diff_fits(d: DiffView) -> bool {
    &&& d.deletions.len() <= usize::MAX
    &&& d.insertions.len() <= usize::MAX
    &&& forall|i: int|
        0 <= i < d.deletions.len() ==> 0 <= (#[trigger] d.deletions[i]).0 <= usize::MAX && 0
            <= d.deletions[i].1 <= usize::MAX
    &&& forall|i: int| 0 <= i < d.insertions.len() ==> 0 <= (#[trigger] d.insertions[i]).0 <= usize::MAX
}

proof fn lemma_versions_prefix(vs: Seq<VersionView>, k: int)
    requires
        0 <= k <= vs.len(),
    ensures
        is_prefix(versions_image(vs.subrange(0, k)), versions_image(vs)),
    decreases vs.len(),
{
    if k == vs.len() {
        assert(vs.subrange(0, k) =~= vs);
        assert(versions_image(vs).subrange(0, versions_image(vs).len() as int) =~= versions_image(vs));
    } else {
        let vl = vs.drop_last();
        assert(versions_image(vs) == versions_image(vl) + version_image(vs.last()));
        lemma_versions_prefix(vl, k);
        assert(vl.subrange(0, k) =~= vs.subrange(0, k));
        let t = versions_image(vs.subrange(0, k));
        assert(versions_image(vs).subrange(0, t.len() as int) =~= versions_image(vl).subrange(0, t.len() as int));
    }
}

/// The number of versions and every offset and count of every delta of `s`
/// fit in `usize`: true of every store this library builds.
pub open spec fn store_fits(s: SbvcView) -> bool {
    &&& s.versions.len() <= usize::MAX
    &&& forall|i: int| 0 <= i < s.versions.len() ==> diff_fits(#[trigger] s.versions[i].difference)
}

/// Appends `x` in `n` little-endian bytes.
fn push_le(out: &mut Vec<u8>, x: u64, n: usize)
    requires
        n <= 8,
    ensures
        final(out)@ == old(out)@ + le(x as nat, n as nat),
{
    let mut v: u64 = x;
    let mut i: usize = 0;
    while i < n
        invariant
            i <= n <= 8,
            old(out)@ + le(x as nat, n as nat) == out@ + le(v as nat, (n - i) as nat),
        decreases n - i,
    {
        let ghost before = out@;
        out.push((v % 256) as u8);
        proof {
            assert(le(v as nat, (n - i) as nat) == seq![(v % 256) as u8] + le(
                (v / 256) as nat,
                (n - i - 1) as nat,
            ));
            assert(out@ + le((v / 256) as nat, (n - i - 1) as nat) =~= before + le(
                v as nat,
                (n - i) as nat,
            ));
        }
        v = v / 256;
        i = i + 1;
    }
    assert(out@ + le(v as nat, 0) =~= out@);
}

/// Appends the bytes of `b`.
fn push_all(out: &mut Vec<u8>, b: &[u8])
    ensures
        final(out)@ == old(out)@ + b@,
{
    let mut i: usize = 0;
    while i < b.len()
        invariant
            i <= b@.len(),
            out@ == old(out)@ + b@.subrange(0, i as int),
        decreases b@.len() - i,
    {
        out.push(b[i]);
        i = i + 1;
        assert(out@ =~= old(out)@ + b@.subrange(0, i as int));
    }
    assert(b@.subrange(0, b@.len() as int) =~= b@);
}

fn push_blob(out: &mut Vec<u8>, b: &[u8])
    ensures
        final(out)@ == old(out)@ + blob(b@),
{
    push_le(out, b.len() as u64, 8);
    push_all(out, b);
    assert(out@ =~= old(out)@ + blob(b@));
}

fn push_text(out: &mut Vec<u8>, s: &String)
    ensures
        final(out)@ == old(out)@ + text(s@),
{
    let b = s.as_str().as_bytes();
    push_blob(out, b);
}

fn push_diff(out: &mut Vec<u8>, d: &Difference)
    ensures
        final(out)@ == old(out)@ + diff_image(d@),
        diff_fits(d@),
{
    let ghost start = out@;
    push_le(out, d.deletions.len() as u64, 8);
    let mut i: usize = 0;
    while i < d.deletions.len()
        invariant
            i <= d.deletions@.len(),
            out@ == start + le(d@.deletions.len(), 8) + cuts_image(d@.deletions.subrange(0, i as int)),
        decreases d.deletions@.len() - i,
    {
        let del = d.deletions[i];
        push_le(out, del.start as u64, 8);
        push_le(out, del.len as u64, 8);
        proof {
            let ds = d@.deletions.subrange(0, i as int + 1);
            assert(ds.drop_last() =~= d@.deletions.subrange(0, i as int));
            assert(ds.last() == (del.start as int, del.len as int));
        }
        i = i + 1;
    }
    assert(d@.deletions.subrange(0, d@.deletions.len() as int) =~= d@.deletions);
    let ghost mid = out@;
    push_le(out, d.insertions.len() as u64, 8);
    let mut j: usize = 0;
    while j < d.insertions.len()
        invariant
            j <= d.insertions@.len(),
            out@ == mid + le(d@.insertions.len(), 8) + splices_image(d@.insertions.subrange(0, j as int)),
        decreases d.insertions@.len() - j,
    {
        let ins = &d.insertions[j];
        push_le(out, ins.at as u64, 8);
        push_blob(out, ins.content.as_slice());
        proof {
            let is = d@.insertions.subrange(0, j as int + 1);
            assert(is.drop_last() =~= d@.insertions.subrange(0, j as int));
            assert(is.last() == (ins.at as int, ins.content@));
        }
        j = j + 1;
    }
    assert(d@.insertions.subrange(0, d@.insertions.len() as int) =~= d@.insertions);
    assert(out@ =~= start + diff_image(d@));
}

fn push_version(out: &mut Vec<u8>, v: &Version)
    ensures
        final(out)@ == old(out)@ + version_image(v@),
        diff_fits(v@.difference),
{
    push_le(out, v.id as u64, 4);
    push_le(out, v.base as u64, 4);
    push_le(out, v.date as u64, 8);
    push_text(out, &v.name);
    push_diff(out, &v.difference);
    assert(out@ =~= old(out)@ + version_image(v@));
}

/// The bytes of the whole store. Every store fits the bounds under which
/// `decode` gives it back from these bytes.
pub fn encode(s: &Sbvc) -> (r: Vec<u8>)
    ensures
        r@ == image(s@),
        store_fits(s@),
{
    let mut out: Vec<u8> = Vec::new();
    out.push(83u8);
    out.push(66u8);
    out.push(86u8);
    out.push(67u8);
    push_le(&mut out, s.current_id() as u64, 4);
    push_le(&mut out, s.next_id() as u64, 4);
    push_blob(&mut out, s.seed().as_slice());
    push_text(&mut out, s.file());
    let vs = s.versions();
    push_le(&mut out, vs.len() as u64, 8);
    let ghost head = out@;
    let mut i: usize = 0;
    while i < vs.len()
        invariant
            i <= vs@.len(),
            views(vs@) == s@.versions,
            vs@.len() <= usize::MAX,
            out@ == head + versions_image(views(vs@).subrange(0, i as int)),
            forall|j: int| 0 <= j < i ==> diff_fits(#[trigger] s@.versions[j].difference),
        decreases vs@.len() - i,
    {
        push_version(&mut out, &vs[i]);
        proof {
            let ws = views(vs@).subrange(0, i as int + 1);
            assert(ws.drop_last() =~= views(vs@).subrange(0, i as int));
        }
        i = i + 1;
    }
    proof {
        assert(views(vs@).subrange(0, vs@.len() as int) =~= s@.versions);
        assert(out@ =~= image(s@));
    }
    out
}

proof fn lemma_bounds()
    ensures
        bound(4) == 0x1_0000_0000,
        bound(8) == 0x1_0000_0000_0000_0000,
        forall|k: nat| k <= 8 ==> #[trigger] bound(k) <= bound(8),
{
    reveal_with_fuel(bound, 9);
    assert forall|k: nat| k <= 8 implies #[trigger] bound(k) <= bound(8) by {
        reveal_with_fuel(bound, 9);
    }
}

/// Reads `n` little-endian bytes at `pos`; `None` where the input ends first.
fn read_le(b: &Vec<u8>, pos: usize, n: usize) -> (r: Option<u64>)
    requires
        1 <= n <= 8,
    ensures
        match r {
            Some(v) => pos + n <= b@.len() && b@.subrange(pos as int, pos + n) == le(v as nat, n as nat)
                && (v as nat) < bound(n as nat),
            None => pos + n > b@.len(),
        },
        b@.len() <= usize::MAX,
{
    let total = b.len();
    if pos > total || n > total - pos {
        return None;
    }
    proof {
        lemma_bounds();
    }
    let mut v: u64 = 0;
    let mut i: usize = n;
    while i > 0
        invariant
            i <= n <= 8,
            pos + n <= b@.len() == total,
            v as nat == val(b@.subrange(pos + i, pos + n)),
            (v as nat) < bound((n - i) as nat),
            bound(8) == 0x1_0000_0000_0000_0000,
            forall|k: nat| k <= 8 ==> #[trigger] bound(k) <= bound(8),
        decreases i,
    {
        let ghost old_sub = b@.subrange(pos + i, pos + n);
        let byte = b[pos + i - 1];
        proof {
            let s = b@.subrange(pos + i - 1, pos + n);
            assert(s.drop_first() =~= old_sub);
            assert(val(s) == byte as nat + 256 * val(old_sub));
            assert(bound((n - i + 1) as nat) == 256 * bound((n - i) as nat));
            assert((v as nat) * 256 + (byte as nat) < bound((n - i + 1) as nat)) by (nonlinear_arith)
                requires
                    (v as nat) < bound((n - i) as nat),
                    bound((n - i + 1) as nat) == 256 * bound((n - i) as nat),
                    byte < 256,
            {}
            assert(bound((n - i + 1) as nat) <= bound(8));
        }
        v = v * 256 + byte as u64;
        i = i - 1;
    }
    proof {
        lemma_val_le(b@.subrange(pos as int, pos + n));
    }
    Some(v)
}

/// Relies on String::from_utf8: it accepts exactly the byte strings that
/// are valid UTF-8, and the string it gives back holds what they decode to.
#[verifier::external_body]
fn utf8_string(v: Vec<u8>) -> (r: Option<String>)
    ensures
        r is Some <==> valid_utf8(v@),
        r matches Some(s) ==> s@ == decode_utf8(v@),
{
    String::from_utf8(v).ok()
}

/// Reads a byte string with its length in front.
fn read_blob(b: &Vec<u8>, pos: usize) -> (r: Option<(Vec<u8>, usize)>)
    ensures
        r matches Some((c, p)) ==> pos <= p <= b@.len() && b@.subrange(pos as int, p as int) == blob(c@),
        r is None ==> forall|c: Seq<u8>| !#[trigger] at(b@, pos as int, blob(c)),
        b@.len() <= usize::MAX,
{
    proof {
        lemma_bounds();
    }
    let n = match read_le(b, pos, 8) {
        Some(n) => n,
        None => {
            proof {
                assert forall|c: Seq<u8>| !#[trigger] at(b@, pos as int, blob(c)) by {
                    lemma_le_len(c.len(), 8);
                }
            }
            return None;
        },
    };
    let start = pos + 8;
    if n > (b.len() - start) as u64 {
        proof {
            assert forall|c: Seq<u8>| !#[trigger] at(b@, pos as int, blob(c)) by {
                if at(b@, pos as int, blob(c)) {
                    lemma_le_len(c.len(), 8);
                    lemma_at_split(b@, pos as int, le(c.len(), 8), c);
                    lemma_at_len(b@, pos as int, blob(c));
                    lemma_le_len(n as nat, 8);
                    lemma_le_unique(b@, pos as int, n as nat, c.len(), 8);
                }
            }
        }
        return None;
    }
    let end = start + n as usize;
    let mut c: Vec<u8> = Vec::new();
    let mut i: usize = start;
    while i < end
        invariant
            start <= i <= end <= b@.len(),
            c@ == b@.subrange(start as int, i as int),
        decreases end - i,
    {
        c.push(b[i]);
        i = i + 1;
        assert(c@ =~= b@.subrange(start as int, i as int));
    }
    proof {
        assert(b@.subrange(pos as int, end as int) =~= b@.subrange(pos as int, start as int) + c@);
    }
    Some((c, end))
}

/// Reads UTF-8 text with its length in front.
fn read_text(b: &Vec<u8>, pos: usize) -> (r: Option<(String, usize)>)
    ensures
        r matches Some((s, p)) ==> pos <= p <= b@.len() && b@.subrange(pos as int, p as int) == text(s@),
        r is None ==> forall|c: Seq<char>| !#[trigger] at(b@, pos as int, text(c)),
{
    let (c, p) = match read_blob(b, pos) {
        Some(x) => x,
        None => {
            proof {
                assert forall|t: Seq<char>| !#[trigger] at(b@, pos as int, text(t)) by {
                    assert(!at(b@, pos as int, blob(encode_utf8(t))));
                }
            }
            return None;
        },
    };
    let ghost bytes = c@;
    match utf8_string(c) {
        Some(s) => {
            proof {
                decode_utf8_encode_utf8(bytes);
            }
            Some((s, p))
        },
        None => {
            proof {
                assert forall|t: Seq<char>| !#[trigger] at(b@, pos as int, text(t)) by {
                    if at(b@, pos as int, text(t)) {
                        lemma_le_len(bytes.len(), 8);
                        assert(at(b@, pos as int, blob(bytes)));
                        lemma_blob_unique(b@, pos as int, bytes, encode_utf8(t));
                        encode_utf8_valid_utf8(t);
                    }
                }
            }
            None
        },
    }
}

/// Reads an offset or a count, which must fit in `usize`.
fn read_size(b: &Vec<u8>, pos: usize) -> (r: Option<usize>)
    ensures
        r matches Some(v) ==> pos + 8 <= b@.len() && b@.subrange(pos as int, pos + 8) == le(v as nat, 8),
        r is None ==> forall|x: nat| x <= usize::MAX ==> !#[trigger] at(b@, pos as int, le(x, 8)),
{
    proof {
        lemma_bounds();
    }
    match read_le(b, pos, 8) {
        Some(v) => {
            if v > usize::MAX as u64 {
                proof {
                    assert forall|x: nat| x <= usize::MAX implies !#[trigger] at(b@, pos as int, le(x, 8)) by {
                        if at(b@, pos as int, le(x, 8)) {
                            lemma_le_len(x, 8);
                            lemma_le_unique(b@, pos as int, x, v as nat, 8);
                        }
                    }
                }
                None
            } else {
                Some(v as usize)
            }
        },
        None => {
            proof {
                assert forall|x: nat| x <= usize::MAX implies !#[trigger] at(b@, pos as int, le(x, 8)) by {
                    lemma_le_len(x, 8);
                }
            }
            None
        },
    }
}

fn read_diff(b: &Vec<u8>, pos: usize) -> (r: Option<(Difference, usize)>)
    ensures
        r matches Some((d, p)) ==> pos <= p <= b@.len() && b@.subrange(pos as int, p as int) == diff_image(d@),
        forall|d: DiffView|
            diff_fits(d) && #[trigger] at(b@, pos as int, diff_image(d)) ==> (r matches Some((x, p)) && x@ == d),
{
    let total = b.len();
    proof {
        lemma_bounds();
    }
    let nd = match read_size(b, pos) {
        Some(v) => v,
        None => {
            proof {
                assert forall|d: DiffView| diff_fits(d) && #[trigger] at(b@, pos as int, diff_image(d)) implies false by {
                    assert(diff_image(d) =~= le(d.deletions.len(), 8) + (cuts_image(d.deletions) + le(
                        d.insertions.len(),
                        8,
                    ) + splices_image(d.insertions)));
                    lemma_at_split(b@, pos as int, le(d.deletions.len(), 8), cuts_image(d.deletions) + le(
                        d.insertions.len(),
                        8,
                    ) + splices_image(d.insertions));
                    lemma_le_len(d.deletions.len(), 8);
                }
            }
            return None;
        },
    };
    proof {
        assert forall|d: DiffView| diff_fits(d) && #[trigger] at(b@, pos as int, diff_image(d)) implies d.deletions.len() == nd by {
            assert(diff_image(d) =~= le(d.deletions.len(), 8) + (cuts_image(d.deletions) + le(
                d.insertions.len(),
                8,
            ) + splices_image(d.insertions)));
            lemma_at_split(b@, pos as int, le(d.deletions.len(), 8), cuts_image(d.deletions) + le(
                d.insertions.len(),
                8,
            ) + splices_image(d.insertions));
            lemma_le_len(d.deletions.len(), 8);
            lemma_le_len(nd as nat, 8);
            assert(at(b@, pos as int, le(nd as nat, 8)));
            lemma_le_unique(b@, pos as int, nd as nat, d.deletions.len(), 8);
        }
    }
    let mut cur: usize = pos + 8;
    let mut deletions: Vec<Deletion> = Vec::new();
    let mut i: usize = 0;
    while i < nd
        invariant
            pos + 8 <= cur <= b@.len() == total,
            i <= nd,
            deletions@.len() == i,
            b@.subrange(pos as int, cur as int) == le(nd as nat, 8) + cuts_image(
                deletions@.map_values(|d: Deletion| (d.start as int, d.len as int)),
            ),
            bound(8) == 0x1_0000_0000_0000_0000,
            forall|d: DiffView|
                diff_fits(d) && #[trigger] at(b@, pos as int, diff_image(d)) ==> d.deletions.len() == nd
                    && d.deletions.subrange(0, i as int) == deletions@.map_values(
                    |d: Deletion| (d.start as int, d.len as int),
                ),
        decreases nd - i,
    {
        let ghost pv = deletions@.map_values(|d: Deletion| (d.start as int, d.len as int));
        proof {
            assert forall|d: DiffView| diff_fits(d) && #[trigger] at(b@, pos as int, diff_image(d)) implies at(
                b@,
                cur as int,
                le(d.deletions[i as int].0 as nat, 8) + le(d.deletions[i as int].1 as nat, 8),
            ) by {
                let ds = d.deletions;
                lemma_cuts_prefix(ds, i as int + 1);
                let dsl = ds.subrange(0, i as int + 1);
                assert(dsl.drop_last() =~= ds.subrange(0, i as int));
                lemma_prefix_extend(
                    le(nd as nat, 8),
                    cuts_image(dsl),
                    cuts_image(ds),
                    le(d.insertions.len(), 8) + splices_image(d.insertions),
                );
                assert(diff_image(d) =~= le(nd as nat, 8) + cuts_image(ds) + (le(d.insertions.len(), 8)
                    + splices_image(d.insertions)));
                lemma_at_prefix(b@, pos as int, diff_image(d), le(nd as nat, 8) + cuts_image(dsl));
                assert(le(nd as nat, 8) + cuts_image(dsl) =~= (le(nd as nat, 8) + cuts_image(pv)) + (
                le(ds[i as int].0 as nat, 8) + le(ds[i as int].1 as nat, 8)));
                lemma_at_split(b@, pos as int, le(nd as nat, 8) + cuts_image(pv), le(ds[i as int].0 as nat, 8)
                    + le(ds[i as int].1 as nat, 8));
            }
        }
        let start = match read_size(b, cur) {
            Some(v) => v,
            None => {
                proof {
                    assert forall|d: DiffView| diff_fits(d) && #[trigger] at(b@, pos as int, diff_image(d)) implies false by {
                        lemma_at_split(b@, cur as int, le(d.deletions[i as int].0 as nat, 8), le(d.deletions[i as int].1 as nat, 8));
                    }
                }
                return None;
            },
        };
        let len = match read_size(b, cur + 8) {
            Some(v) => v,
            None => {
                proof {
                    assert forall|d: DiffView| diff_fits(d) && #[trigger] at(b@, pos as int, diff_image(d)) implies false by {
                        lemma_at_split(b@, cur as int, le(d.deletions[i as int].0 as nat, 8), le(d.deletions[i as int].1 as nat, 8));
                        lemma_le_len(d.deletions[i as int].0 as nat, 8);
                    }
                }
                return None;
            },
        };
        proof {
            assert forall|d: DiffView| diff_fits(d) && #[trigger] at(b@, pos as int, diff_image(d)) implies d.deletions[i as int] == (start as int, len as int) by {
                let e = d.deletions[i as int];
                lemma_at_split(b@, cur as int, le(e.0 as nat, 8), le(e.1 as nat, 8));
                lemma_le_len(e.0 as nat, 8);
                lemma_le_len(start as nat, 8);
                lemma_le_len(len as nat, 8);
                assert(at(b@, cur as int, le(start as nat, 8)));
                assert(at(b@, cur + 8, le(len as nat, 8)));
                lemma_le_unique(b@, cur as int, start as nat, e.0 as nat, 8);
                lemma_le_unique(b@, cur + 8, len as nat, e.1 as nat, 8);
            }
        }
        let ghost before = deletions@;
        deletions.push(Deletion { start, len });
        proof {
            let m = deletions@.map_values(|d: Deletion| (d.start as int, d.len as int));
            assert forall|d: DiffView| diff_fits(d) && #[trigger] at(b@, pos as int, diff_image(d)) implies d.deletions.subrange(0, i as int + 1) == m by {
                assert(d.deletions.subrange(0, i as int) == pv);
                assert(d.deletions.subrange(0, i as int + 1) =~= m);
            }
            let m = deletions@.map_values(|d: Deletion| (d.start as int, d.len as int));
            assert(m.drop_last() =~= before.map_values(|d: Deletion| (d.start as int, d.len as int)));
            assert(b@.subrange(pos as int, cur + 16) =~= b@.subrange(pos as int, cur as int)
                + b@.subrange(cur as int, cur + 8) + b@.subrange(cur + 8, cur + 16));
        }
        cur = cur + 16;
        i = i + 1;
    }
    let ghost dv = deletions@.map_values(|d: Deletion| (d.start as int, d.len as int));
    proof {
        assert forall|d: DiffView| diff_fits(d) && #[trigger] at(b@, pos as int, diff_image(d)) implies d.deletions == dv && at(
            b@,
            cur as int,
            le(d.insertions.len(), 8) + splices_image(d.insertions),
        ) by {
            assert(d.deletions =~= d.deletions.subrange(0, nd as int));
            assert(diff_image(d) =~= (le(nd as nat, 8) + cuts_image(dv)) + (le(d.insertions.len(), 8)
                + splices_image(d.insertions)));
            lemma_at_split(b@, pos as int, le(nd as nat, 8) + cuts_image(dv), le(d.insertions.len(), 8)
                + splices_image(d.insertions));
        }
    }
    let ni = match read_size(b, cur) {
        Some(v) => v,
        None => {
            proof {
                assert forall|d: DiffView| diff_fits(d) && #[trigger] at(b@, pos as int, diff_image(d)) implies false by {
                    lemma_at_split(b@, cur as int, le(d.insertions.len(), 8), splices_image(d.insertions));
                }
            }
            return None;
        },
    };
    proof {
        assert forall|d: DiffView| diff_fits(d) && #[trigger] at(b@, pos as int, diff_image(d)) implies d.insertions.len() == ni by {
            lemma_at_split(b@, cur as int, le(d.insertions.len(), 8), splices_image(d.insertions));
            lemma_le_len(d.insertions.len(), 8);
            lemma_le_len(ni as nat, 8);
            assert(at(b@, cur as int, le(ni as nat, 8)));
            lemma_le_unique(b@, cur as int, ni as nat, d.insertions.len(), 8);
        }
    }
    let mid = cur;
    cur = cur + 8;
    let mut insertions: Vec<Insertion> = Vec::new();
    let mut j: usize = 0;
    while j < ni
        invariant
            mid + 8 <= cur <= b@.len() == total,
            j <= ni,
            insertions@.len() == j,
            b@.subrange(mid as int, cur as int) == le(ni as nat, 8) + splices_image(
                insertions@.map_values(|i: Insertion| (i.at as int, i.content@)),
            ),
            bound(8) == 0x1_0000_0000_0000_0000,
            forall|d: DiffView|
                diff_fits(d) && #[trigger] at(b@, pos as int, diff_image(d)) ==> d.deletions == dv
                    && d.insertions.len() == ni && at(
                    b@,
                    mid as int,
                    le(d.insertions.len(), 8) + splices_image(d.insertions),
                ) && d.insertions.subrange(0, j as int) == insertions@.map_values(
                    |i: Insertion| (i.at as int, i.content@),
                ),
        decreases ni - j,
    {
        let ghost pv = insertions@.map_values(|i: Insertion| (i.at as int, i.content@));
        proof {
            assert forall|d: DiffView| diff_fits(d) && #[trigger] at(b@, pos as int, diff_image(d)) implies at(
                b@,
                cur as int,
                le(d.insertions[j as int].0 as nat, 8) + blob(d.insertions[j as int].1),
            ) by {
                let is = d.insertions;
                lemma_splices_prefix(is, j as int + 1);
                let isl = is.subrange(0, j as int + 1);
                assert(isl.drop_last() =~= is.subrange(0, j as int));
                lemma_prefix_extend(le(ni as nat, 8), splices_image(isl), splices_image(is), Seq::empty());
                assert(le(ni as nat, 8) + splices_image(is) + Seq::<u8>::empty() =~= le(ni as nat, 8) + splices_image(is));
                lemma_at_prefix(b@, mid as int, le(ni as nat, 8) + splices_image(is), le(ni as nat, 8) + splices_image(isl));
                assert(le(ni as nat, 8) + splices_image(isl) =~= (le(ni as nat, 8) + splices_image(pv)) + (
                le(is[j as int].0 as nat, 8) + blob(is[j as int].1)));
                lemma_at_split(b@, mid as int, le(ni as nat, 8) + splices_image(pv), le(is[j as int].0 as nat, 8)
                    + blob(is[j as int].1));
            }
        }
        let offset = match read_size(b, cur) {
            Some(v) => v,
            None => {
                proof {
                    assert forall|d: DiffView| diff_fits(d) && #[trigger] at(b@, pos as int, diff_image(d)) implies false by {
                        lemma_at_split(b@, cur as int, le(d.insertions[j as int].0 as nat, 8), blob(d.insertions[j as int].1));
                    }
                }
                return None;
            },
        };
        proof {
            assert forall|d: DiffView| diff_fits(d) && #[trigger] at(b@, pos as int, diff_image(d)) implies d.insertions[j as int].0 == offset
                && at(b@, cur + 8, blob(d.insertions[j as int].1)) by {
                let e = d.insertions[j as int];
                lemma_at_split(b@, cur as int, le(e.0 as nat, 8), blob(e.1));
                lemma_le_len(e.0 as nat, 8);
                lemma_le_len(offset as nat, 8);
                assert(at(b@, cur as int, le(offset as nat, 8)));
                lemma_le_unique(b@, cur as int, offset as nat, e.0 as nat, 8);
            }
        }
        let (content, p) = match read_blob(b, cur + 8) {
            Some(x) => x,
            None => {
                proof {
                    assert forall|d: DiffView| diff_fits(d) && #[trigger] at(b@, pos as int, diff_image(d)) implies false by {
                        assert(at(b@, cur + 8, blob(d.insertions[j as int].1)));
                    }
                }
                return None;
            },
        };
        proof {
            assert forall|d: DiffView| diff_fits(d) && #[trigger] at(b@, pos as int, diff_image(d)) implies d.insertions[j as int] == (offset as int, content@) by {
                lemma_le_len(content@.len(), 8);
                assert(at(b@, cur + 8, blob(content@)));
                lemma_blob_unique(b@, cur + 8, content@, d.insertions[j as int].1);
            }
        }
        let ghost before = insertions@;
        let ghost cv = content@;
        insertions.push(Insertion { at: offset, content });
        proof {
            let m = insertions@.map_values(|i: Insertion| (i.at as int, i.content@));
            assert(m.drop_last() =~= before.map_values(|i: Insertion| (i.at as int, i.content@)));
            assert(m.last() == (offset as int, cv));
            assert(b@.subrange(mid as int, p as int) =~= b@.subrange(mid as int, cur as int)
                + b@.subrange(cur as int, cur + 8) + b@.subrange(cur + 8, p as int));
            assert forall|d: DiffView| diff_fits(d) && #[trigger] at(b@, pos as int, diff_image(d)) implies d.insertions.subrange(0, j as int + 1) == m by {
                assert(d.insertions.subrange(0, j as int) == pv);
                assert(d.insertions.subrange(0, j as int + 1) =~= m);
            }
        }
        cur = p;
        j = j + 1;
    }
    let d = Difference { deletions, insertions };
    proof {
        assert(b@.subrange(pos as int, cur as int) =~= b@.subrange(pos as int, mid as int)
            + b@.subrange(mid as int, cur as int));
        assert(b@.subrange(pos as int, cur as int) =~= diff_image(d@));
        assert forall|e: DiffView| diff_fits(e) && #[trigger] at(b@, pos as int, diff_image(e)) implies d@ == e by {
            assert(e.insertions =~= e.insertions.subrange(0, ni as int));
            assert(d@.deletions == e.deletions);
            assert(d@.insertions == e.insertions);
        }
    }
    Some((d, cur))
}

fn read_version(b: &Vec<u8>, pos: usize) -> (r: Option<(Version, usize)>)
    ensures
        r matches Some((v, p)) ==> pos <= p <= b@.len() && b@.subrange(pos as int, p as int) == version_image(v@),
        forall|v: VersionView|
            diff_fits(v.difference) && #[trigger] at(b@, pos as int, version_image(v)) ==> (r matches Some(
                (x, p),
            ) && x@ == v),
{
    proof {
        lemma_bounds();
        assert forall|v: VersionView| diff_fits(v.difference) && #[trigger] at(b@, pos as int, version_image(v)) implies {
            &&& at(b@, pos as int, le(v.id as nat, 4))
            &&& at(b@, pos + 4, le(v.base as nat, 4))
            &&& at(b@, pos + 8, date_image(v.date))
            &&& at(b@, pos + 16, text(v.name))
            &&& at(b@, pos + 16 + text(v.name).len(), diff_image(v.difference))
        } by {
            let s1 = le(v.id as nat, 4);
            let s2 = le(v.base as nat, 4);
            let s3 = date_image(v.date);
            let s4 = text(v.name);
            let s5 = diff_image(v.difference);
            lemma_le_len(v.id as nat, 4);
            lemma_le_len(v.base as nat, 4);
            lemma_le_len((v.date as u64) as nat, 8);
            assert(version_image(v) =~= s1 + (s2 + (s3 + (s4 + s5))));
            lemma_at_split(b@, pos as int, s1, s2 + (s3 + (s4 + s5)));
            lemma_at_split(b@, pos + 4, s2, s3 + (s4 + s5));
            lemma_at_split(b@, pos + 8, s3, s4 + s5);
            lemma_at_split(b@, pos + 16, s4, s5);
        }
    }
    let id = match read_le(b, pos, 4) {
        Some(v) => v as u32,
        None => return None,
    };
    let base = match read_le(b, pos + 4, 4) {
        Some(v) => v as u32,
        None => return None,
    };
    let raw = match read_le(b, pos + 8, 8) {
        Some(v) => v,
        None => return None,
    };
    let date = #[verifier::truncate] (raw as i64);
    proof {
        assert(((raw as i64) as u64) == raw) by (bit_vector);
    }
    let (name, p1) = match read_text(b, pos + 16) {
        Some(x) => x,
        None => return None,
    };
    proof {
        assert forall|v: VersionView| diff_fits(v.difference) && #[trigger] at(b@, pos as int, version_image(v)) implies {
            &&& v.id == id
            &&& v.base == base
            &&& v.date == date
            &&& v.name == name@
            &&& at(b@, p1 as int, diff_image(v.difference))
        } by {
            lemma_le_len(id as nat, 4);
            lemma_le_len(base as nat, 4);
            lemma_le_len(raw as nat, 8);
            lemma_le_len(v.id as nat, 4);
            lemma_le_len(v.base as nat, 4);
            lemma_le_len((v.date as u64) as nat, 8);
            lemma_le_unique(b@, pos as int, id as nat, v.id as nat, 4);
            lemma_le_unique(b@, pos + 4, base as nat, v.base as nat, 4);
            lemma_le_unique(b@, pos + 8, raw as nat, (v.date as u64) as nat, 8);
            let d = v.date;
            assert(((d as u64) as i64) == d) by (bit_vector);
            lemma_text_unique(b@, pos + 16, name@, v.name);
        }
    }
    let (difference, p2) = match read_diff(b, p1) {
        Some(x) => x,
        None => return None,
    };
    let v = Version { id, base, name, date, difference };
    proof {
        assert(b@.subrange(pos as int, p2 as int) =~= b@.subrange(pos as int, pos + 4)
            + b@.subrange(pos + 4, pos + 8) + b@.subrange(pos + 8, pos + 16)
            + b@.subrange(pos + 16, p1 as int) + b@.subrange(p1 as int, p2 as int));
    }
    Some((v, p2))
}

/// Reads a store back from its bytes: the bytes of a well-formed store give
/// that store back, and whatever it returns is well formed and is written
/// back as exactly these bytes. Bytes that are cut short, carry extra bytes
/// at the end, or break the tree rules give `MalformedStore`; a delta that
/// does not fit gives `CorruptDifference`.
#[verifier::spinoff_prover]
#[verifier::rlimit(100)]
pub fn decode(b: &Vec<u8>) -> (r: Result<Sbvc, Error>)
    ensures
        r matches Ok(t) ==> well_formed(t@) && image(t@) == b@,
        r matches Err(e) ==> e == Error::MalformedStore || e == Error::CorruptDifference,
        forall|s: SbvcView|
            store_fits(s) && well_formed(s) && #[trigger] image(s) == b@ ==> (r matches Ok(t) && t@ == s),
{
    let total = b.len();
    proof {
        lemma_bounds();
        assert forall|s: SbvcView| store_fits(s) && well_formed(s) && #[trigger] image(s) == b@ implies {
            let q: int = 12 + blob(s.seed).len() as int + text(s.file).len() as int;
            &&& b@.len() >= 4 && b@.subrange(0, 4) == magic()
            &&& at(b@, 4, le(s.current as nat, 4))
            &&& at(b@, 8, le(s.next_id as nat, 4))
            &&& at(b@, 12, blob(s.seed))
            &&& at(b@, 12 + blob(s.seed).len() as int, text(s.file))
            &&& at(b@, q, le(s.versions.len(), 8))
            &&& at(b@, q + 8, versions_image(s.versions))
            &&& q + 8 + versions_image(s.versions).len() == b@.len()
        } by {
            let s0 = magic();
            let s1 = le(s.current as nat, 4);
            let s2 = le(s.next_id as nat, 4);
            let s3 = blob(s.seed);
            let s4 = text(s.file);
            let s5 = le(s.versions.len(), 8);
            let s6 = versions_image(s.versions);
            lemma_le_len(s.current as nat, 4);
            lemma_le_len(s.next_id as nat, 4);
            lemma_le_len(s.versions.len(), 8);
            assert(image(s) =~= s0 + (s1 + (s2 + (s3 + (s4 + (s5 + s6))))));
            assert(at(b@, 0, image(s))) by {
                assert(b@.subrange(0, b@.len() as int) =~= b@);
            }
            lemma_at_split(b@, 0, s0, s1 + (s2 + (s3 + (s4 + (s5 + s6)))));
            lemma_at_split(b@, 4, s1, s2 + (s3 + (s4 + (s5 + s6))));
            lemma_at_split(b@, 8, s2, s3 + (s4 + (s5 + s6)));
            lemma_at_split(b@, 12, s3, s4 + (s5 + s6));
            lemma_at_split(b@, 12 + s3.len() as int, s4, s5 + s6);
            lemma_at_split(b@, 12 + s3.len() as int + s4.len() as int, s5, s6);
        }
    }
    if b.len() < 4 || b[0] != 83u8 || b[1] != 66u8 || b[2] != 86u8 || b[3] != 67u8 {
        proof {
            assert forall|s: SbvcView| store_fits(s) && well_formed(s) && #[trigger] image(s) == b@ implies false by {
                assert(b@.subrange(0, 4)[0] == b@[0]);
                assert(b@.subrange(0, 4)[1] == b@[1]);
                assert(b@.subrange(0, 4)[2] == b@[2]);
                assert(b@.subrange(0, 4)[3] == b@[3]);
            }
        }
        return Err(Error::MalformedStore);
    }
    let current = match read_le(b, 4, 4) {
        Some(v) => v as u32,
        None => {
            proof {
                assert forall|s: SbvcView| store_fits(s) && well_formed(s) && #[trigger] image(s) == b@ implies false by {
                    lemma_le_len(s.current as nat, 4);
                }
            }
            return Err(Error::MalformedStore);
        },
    };
    let next_id = match read_le(b, 8, 4) {
        Some(v) => v as u32,
        None => {
            proof {
                assert forall|s: SbvcView| store_fits(s) && well_formed(s) && #[trigger] image(s) == b@ implies false by {
                    lemma_le_len(s.next_id as nat, 4);
                }
            }
            return Err(Error::MalformedStore);
        },
    };
    let (seed, p1) = match read_blob(b, 12) {
        Some(x) => x,
        None => return Err(Error::MalformedStore),
    };
    proof {
        assert forall|s: SbvcView| store_fits(s) && well_formed(s) && #[trigger] image(s) == b@ implies s.current
            == current && s.next_id == next_id && s.seed == seed@ && p1 == 12 + blob(s.seed).len() by {
            lemma_le_len(s.current as nat, 4);
            lemma_le_len(s.next_id as nat, 4);
            lemma_le_len(current as nat, 4);
            lemma_le_len(next_id as nat, 4);
            lemma_le_unique(b@, 4, current as nat, s.current as nat, 4);
            lemma_le_unique(b@, 8, next_id as nat, s.next_id as nat, 4);
            lemma_le_len(seed@.len(), 8);
            assert(at(b@, 12, blob(seed@)));
            lemma_blob_unique(b@, 12, seed@, s.seed);
        }
    }
    let (file, p2) = match read_text(b, p1) {
        Some(x) => x,
        None => return Err(Error::MalformedStore),
    };
    proof {
        assert forall|s: SbvcView| store_fits(s) && well_formed(s) && #[trigger] image(s) == b@ implies s.file
            == file@ && p2 == p1 + text(s.file).len() by {
            lemma_le_len(encode_utf8(file@).len(), 8);
            assert(at(b@, p1 as int, text(file@)));
            lemma_text_unique(b@, p1 as int, file@, s.file);
        }
    }
    let count = match read_size(b, p2) {
        Some(v) => v,
        None => return Err(Error::MalformedStore),
    };
    let head = p2 + 8;
    proof {
        assert forall|s: SbvcView| store_fits(s) && well_formed(s) && #[trigger] image(s) == b@ implies s.versions.len()
            == count && at(b@, head as int, versions_image(s.versions)) && head + versions_image(s.versions).len()
            == b@.len() by {
            lemma_le_len(s.versions.len(), 8);
            lemma_le_len(count as nat, 8);
            assert(at(b@, p2 as int, le(count as nat, 8)));
            lemma_le_unique(b@, p2 as int, count as nat, s.versions.len(), 8);
        }
    }
    let mut cur: usize = head;
    let mut versions: Vec<Version> = Vec::new();
    let mut i: usize = 0;
    while i < count
        invariant
            head <= cur <= b@.len() == total,
            i <= count,
            versions@.len() == i,
            b@.subrange(head as int, cur as int) == versions_image(views(versions@)),
            forall|s: SbvcView|
                store_fits(s) && well_formed(s) && #[trigger] image(s) == b@ ==> s.versions.len() == count
                    && at(b@, head as int, versions_image(s.versions)) && head + versions_image(
                    s.versions,
                ).len() == b@.len() && s.versions.subrange(0, i as int) == views(versions@),
        decreases count - i,
    {
        proof {
            assert forall|s: SbvcView| store_fits(s) && well_formed(s) && #[trigger] image(s) == b@ implies at(
                b@,
                cur as int,
                version_image(s.versions[i as int]),
            ) && diff_fits(s.versions[i as int].difference) by {
                let vs = s.versions;
                lemma_versions_prefix(vs, i as int + 1);
                let vsl = vs.subrange(0, i as int + 1);
                assert(vsl.drop_last() =~= vs.subrange(0, i as int));
                lemma_at_prefix(b@, head as int, versions_image(vs), versions_image(vsl));
                lemma_at_split(b@, head as int, versions_image(views(versions@)), version_image(vs[i as int]));
            }
        }
        let (v, p) = match read_version(b, cur) {
            Some(x) => x,
            None => return Err(Error::MalformedStore),
        };
        let ghost before = versions@;
        let ghost vv = v@;
        versions.push(v);
        proof {
            assert(views(versions@).drop_last() =~= views(before));
            assert(views(versions@).last() == vv);
            assert(b@.subrange(head as int, p as int) =~= b@.subrange(head as int, cur as int)
                + b@.subrange(cur as int, p as int));
            assert forall|s: SbvcView| store_fits(s) && well_formed(s) && #[trigger] image(s) == b@ implies s.versions.subrange(
                0,
                i as int + 1,
            ) == views(versions@) by {
                assert(s.versions.subrange(0, i as int) == views(before));
                assert(s.versions.subrange(0, i as int + 1) =~= views(versions@));
            }
        }
        cur = p;
        i = i + 1;
    }
    proof {
        assert forall|s: SbvcView| store_fits(s) && well_formed(s) && #[trigger] image(s) == b@ implies s.versions == views(
            versions@,
        ) && cur == b@.len() by {
            assert(s.versions =~= s.versions.subrange(0, count as int));
        }
    }
    if cur != b.len() {
        return Err(Error::MalformedStore);
    }
    let ghost vs = views(versions@);
    let ghost seed_v = seed@;
    let ghost file_v = file@;
    let r = Sbvc::from_parts(versions, current, seed, file, next_id);
    proof {
        if r is Ok {
            let t = r->Ok_0;
            assert(t@.versions == vs);
            assert(b@ =~= b@.subrange(0, 4) + b@.subrange(4, 8) + b@.subrange(8, 12)
                + b@.subrange(12, p1 as int) + b@.subrange(p1 as int, p2 as int)
                + b@.subrange(p2 as int, head as int) + b@.subrange(head as int, cur as int));
            assert(b@.subrange(0, 4) =~= magic());
            assert(b@ =~= image(t@));
        }
        assert forall|s: SbvcView| store_fits(s) && well_formed(s) && #[trigger] image(s) == b@ implies (r matches Ok(
            t,
        ) && t@ == s) by {
            assert(s == (SbvcView { versions: vs, current: current, seed: seed_v, file: file_v, next_id: next_id }));
        }
    }
    r
}

} // verus!
