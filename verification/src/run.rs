use crate::replica::ReplicaId;
use vstd::prelude::*;

verus! {

/// A position in the text, named by the character it follows: `offset` is
/// one past the character timestamp of that character, inserted by
/// `replica_id`. The origin anchor stands for the start of the text.
#[derive(Copy, Clone, PartialEq, Eq, Structural)]
pub struct Anchor {
    /// The replica that inserted the character the anchor follows.
    pub replica_id: ReplicaId,
    /// One past the character timestamp of that character.
    pub offset: u64,
}

impl Anchor {
    /// The origin anchor: the nil replica at offset 0.
    pub open spec fn spec_origin() -> Anchor {
        Anchor { replica_id: ReplicaId::nil(), offset: 0 }
    }

    /// Whether this is the origin anchor.
    pub open spec fn is_origin(self) -> bool {
        self == Anchor::spec_origin()
    }

    /// The origin anchor, which stands for the start of the text.
    pub fn origin() -> (a: Self)
        ensures
            a.is_origin(),
    {
        Anchor { replica_id: ReplicaId::zero(), offset: 0 }
    }

    /// The anchor just after the character `(replica_id, offset - 1)`.
    pub fn new(replica_id: ReplicaId, offset: u64) -> (a: Self)
        ensures
            a == (Anchor { replica_id, offset }),
    {
        Anchor { replica_id, offset }
    }
}

/// An edit to send to the other replicas.
#[derive(Copy, Clone, PartialEq, Eq, Structural)]
pub enum CrdtEdit {
    /// Nothing for the other replicas to do.
    NoOp,
    /// `len` characters inserted by `replica_id` after `anchor`, stamped
    /// with the Lamport timestamp `lamport_ts`.
    Insertion { anchor: Anchor, replica_id: ReplicaId, len: u64, lamport_ts: u64 },
}

impl CrdtEdit {
    /// The edit that asks nothing of the other replicas.
    pub fn no_op() -> (e: Self)
        ensures
            e == CrdtEdit::NoOp,
    {
        CrdtEdit::NoOp
    }

    /// The edit that inserts `len` characters of `replica_id` after `anchor`.
    pub fn insertion(anchor: Anchor, replica_id: ReplicaId, len: u64, lamport_ts: u64) -> (e: Self)
        ensures
            e == (CrdtEdit::Insertion { anchor, replica_id, len, lamport_ts }),
    {
        CrdtEdit::Insertion { anchor, replica_id, len, lamport_ts }
    }
}

/// A run of consecutive characters inserted by one replica: the characters
/// with timestamps `start..end` of `replica_id`, all visible or all deleted.
#[derive(Copy, Clone, PartialEq, Eq, Structural)]
pub struct InsertionRun {
    /// Where the insertion that made the run was placed.
    pub anchor: Anchor,
    /// The replica that inserted the run.
    pub replica_id: ReplicaId,
    /// The character timestamp of the first character.
    pub start: u64,
    /// One past the character timestamp of the last character.
    pub end: u64,
    /// The Lamport timestamp of the insertion.
    pub lamport_ts: u64,
    /// Whether the characters are in the text (`false` once deleted).
    pub visible: bool,
}

/// Whether a run is well formed: it does not end before it starts, and it
/// is not empty if deleted.
pub open spec fn run_ok(r: InsertionRun) -> bool {
    r.start <= r.end && (!r.visible ==> r.start < r.end)
}

/// Whether every run of a sequence is well formed.
pub open spec fn runs_ok(runs: Seq<InsertionRun>) -> bool {
    forall|j: int| 0 <= j < runs.len() ==> run_ok(#[trigger] runs[j])
}

/// Well-formed runs stay so when taken apart and put together.
pub proof fn lemma_runs_ok_splice(runs: Seq<InsertionRun>, i: int, pieces: Seq<InsertionRun>)
    requires
        0 <= i < runs.len(),
        runs_ok(runs),
        runs_ok(pieces),
    ensures
        runs_ok(runs.take(i) + pieces + runs.skip(i + 1)),
{
    let r = runs.take(i) + pieces + runs.skip(i + 1);
    assert forall|j: int| 0 <= j < r.len() implies run_ok(#[trigger] r[j]) by {
        if j < i {
            assert(r[j] == runs[j]);
        } else if j < i + pieces.len() {
            assert(r[j] == pieces[j - i]);
        } else {
            assert(r[j] == runs[j - pieces.len() + 1]);
        }
    }
}

/// A character: the replica that inserted it and its character timestamp.
pub type Char = (ReplicaId, u64);

/// The characters of a run, in order.
pub open spec fn run_chars(r: InsertionRun) -> Seq<Char> {
    Seq::new((r.end - r.start) as nat, |j: int| (r.replica_id, (r.start + j) as u64))
}

/// The characters of a run that count: all of them, or when `only_visible`
/// holds, none of a deleted run.
pub open spec fn shown_chars(r: InsertionRun, only_visible: bool) -> Seq<Char> {
    if only_visible && !r.visible {
        Seq::empty()
    } else {
        run_chars(r)
    }
}

/// The characters of a sequence of runs, in order: all of them, or the
/// visible ones only.
pub open spec fn chars(runs: Seq<InsertionRun>, only_visible: bool) -> Seq<Char>
    decreases runs.len(),
{
    if runs.len() == 0 {
        Seq::empty()
    } else {
        chars(runs.drop_last(), only_visible) + shown_chars(runs.last(), only_visible)
    }
}

/// The characters of two sequences of runs put together are those of the
/// first followed by those of the second.
pub proof fn lemma_chars_concat(a: Seq<InsertionRun>, b: Seq<InsertionRun>, only_visible: bool)
    ensures
        chars(a + b, only_visible) == chars(a, only_visible) + chars(b, only_visible),
    decreases b.len(),
{
    if b.len() == 0 {
        assert(a + b =~= a);
        assert(chars(a, only_visible) + chars(b, only_visible) =~= chars(a, only_visible));
    } else {
        lemma_chars_concat(a, b.drop_last(), only_visible);
        assert((a + b).drop_last() =~= a + b.drop_last());
        assert((a + b).last() == b.last());
        assert(chars(a + b, only_visible) =~= chars(a, only_visible) + chars(b, only_visible));
    }
}

/// The characters of a single run.
pub proof fn lemma_chars_single(r: InsertionRun, only_visible: bool)
    ensures
        chars(seq![r], only_visible) == shown_chars(r, only_visible),
{
    assert(seq![r].drop_last() =~= Seq::<InsertionRun>::empty());
    assert(seq![r].last() == r);
    assert(chars(Seq::<InsertionRun>::empty(), only_visible) =~= Seq::<Char>::empty());
    assert(chars(seq![r], only_visible) =~= shown_chars(r, only_visible));
}

/// The characters of a sequence with one more run at its end.
pub proof fn lemma_chars_push(runs: Seq<InsertionRun>, r: InsertionRun, only_visible: bool)
    ensures
        chars(runs.push(r), only_visible) == chars(runs, only_visible) + shown_chars(r, only_visible),
{
    assert(runs.push(r).drop_last() =~= runs);
}

/// The characters of the runs up to `i + 1` are those up to `i` followed by
/// those of run `i`.
pub proof fn lemma_chars_take_next(runs: Seq<InsertionRun>, i: int, only_visible: bool)
    requires
        0 <= i < runs.len(),
    ensures
        chars(runs.take(i + 1), only_visible) == chars(runs.take(i), only_visible) + shown_chars(runs[i], only_visible),
{
    assert(runs.take(i + 1) =~= runs.take(i).push(runs[i]));
    lemma_chars_push(runs.take(i), runs[i], only_visible);
}

/// Splitting the runs around run `i`.
pub proof fn lemma_chars_around(runs: Seq<InsertionRun>, i: int, only_visible: bool)
    requires
        0 <= i < runs.len(),
    ensures
        chars(runs, only_visible) == chars(runs.take(i), only_visible) + shown_chars(runs[i], only_visible)
            + chars(runs.skip(i + 1), only_visible),
{
    assert(runs =~= runs.take(i + 1) + runs.skip(i + 1));
    lemma_chars_concat(runs.take(i + 1), runs.skip(i + 1), only_visible);
    lemma_chars_take_next(runs, i, only_visible);
}

/// The characters of a prefix of the runs are a prefix of their characters.
pub proof fn lemma_chars_take(runs: Seq<InsertionRun>, i: int, only_visible: bool)
    requires
        0 <= i <= runs.len(),
    ensures
        chars(runs, only_visible) == chars(runs.take(i), only_visible) + chars(runs.skip(i), only_visible),
        chars(runs.take(i), only_visible).len() <= chars(runs, only_visible).len(),
{
    assert(runs =~= runs.take(i) + runs.skip(i));
    lemma_chars_concat(runs.take(i), runs.skip(i), only_visible);
}

/// The number of visible characters before run `i` never decreases with `i`.
pub proof fn lemma_chars_take_monotonic(runs: Seq<InsertionRun>, i: int, j: int, only_visible: bool)
    requires
        0 <= i <= j <= runs.len(),
    ensures
        chars(runs.take(i), only_visible).len() <= chars(runs.take(j), only_visible).len(),
{
    assert(runs.take(j).take(i) =~= runs.take(i));
    lemma_chars_take(runs.take(j), i, only_visible);
}

/// The characters of two runs.
pub proof fn lemma_chars_two(a: InsertionRun, b: InsertionRun, only_visible: bool)
    ensures
        chars(seq![a, b], only_visible) == shown_chars(a, only_visible) + shown_chars(b, only_visible),
{
    lemma_chars_single(a, only_visible);
    lemma_chars_push(seq![a], b, only_visible);
    assert(seq![a].push(b) =~= seq![a, b]);
}

/// The characters of three runs.
pub proof fn lemma_chars_three(a: InsertionRun, b: InsertionRun, c: InsertionRun, only_visible: bool)
    ensures
        chars(seq![a, b, c], only_visible) == shown_chars(a, only_visible) + shown_chars(b, only_visible)
            + shown_chars(c, only_visible),
{
    lemma_chars_two(a, b, only_visible);
    lemma_chars_push(seq![a, b], c, only_visible);
    assert(seq![a, b].push(c) =~= seq![a, b, c]);
}

/// Replacing run `i` by `pieces` whose characters are those of run `i` with
/// `new` put in at `k` puts `new` in at `p + k` in the characters of all the
/// runs, where `p` counts the characters before run `i`.
pub proof fn lemma_chars_splice(
    runs: Seq<InsertionRun>,
    i: int,
    pieces: Seq<InsertionRun>,
    k: int,
    new: Seq<Char>,
    only_visible: bool,
)
    requires
        0 <= i < runs.len(),
        0 <= k <= shown_chars(runs[i], only_visible).len(),
        chars(pieces, only_visible) == shown_chars(runs[i], only_visible).take(k) + new + shown_chars(
            runs[i],
            only_visible,
        ).skip(k),
    ensures
        ({
            let p = chars(runs.take(i), only_visible).len();
            let c = chars(runs, only_visible);
            &&& chars(runs.take(i) + pieces + runs.skip(i + 1), only_visible) == c.take(p + k) + new + c.skip(p + k)
            &&& p + k <= c.len()
        }),
{
    let prefix = runs.take(i);
    let suffix = runs.skip(i + 1);
    let shown = shown_chars(runs[i], only_visible);
    lemma_chars_around(runs, i, only_visible);
    lemma_chars_concat(prefix + pieces, suffix, only_visible);
    lemma_chars_concat(prefix, pieces, only_visible);
    let p = chars(prefix, only_visible).len();
    let c = chars(runs, only_visible);
    let a = chars(prefix, only_visible);
    let b = chars(suffix, only_visible);
    assert(c == a + shown + b);
    assert(c.take(p + k) =~= a + shown.take(k));
    assert(c.skip(p + k) =~= shown.skip(k) + b);
    assert(chars(prefix + pieces + suffix, only_visible) =~= c.take(p + k) + new + c.skip(p + k));
}

/// `n` kept within `0..=hi`.
pub open spec fn clamp(n: int, hi: int) -> int {
    if n <= 0 {
        0
    } else if n >= hi {
        hi
    } else {
        n
    }
}

/// The characters `v` with those at positions `s..e` cut out, as far as `v`
/// reaches.
pub open spec fn cut(v: Seq<Char>, s: int, e: int) -> Seq<Char> {
    v.take(clamp(s, v.len() as int)) + v.skip(clamp(e, v.len() as int))
}

/// The runs that take the place of `r` when the visible characters at
/// offsets `s..e` of the text are deleted, where `p` visible characters come
/// before `r`: `r` itself when none of its visible characters is in the
/// range; else its part before the range, if any, its part in the range,
/// marked deleted, and its part after the range, if any.
pub open spec fn cut_run(r: InsertionRun, p: int, s: int, e: int) -> Seq<InsertionRun> {
    let n = shown_chars(r, true).len() as int;
    let a = clamp(s - p, n);
    let b = clamp(e - p, n);
    if !r.visible || a == b {
        seq![r]
    } else {
        let left = InsertionRun { end: (r.start + a) as u64, ..r };
        let mid = InsertionRun { start: (r.start + a) as u64, end: (r.start + b) as u64, visible: false, ..r };
        let right = InsertionRun { start: (r.start + b) as u64, ..r };
        (if a > 0 {
            seq![left]
        } else {
            Seq::empty()
        }) + seq![mid] + (if b < n {
            seq![right]
        } else {
            Seq::empty()
        })
    }
}

/// The runs after deleting the visible characters at offsets `s..e`: each
/// run cut at the ends of the range, its part in the range marked deleted.
pub open spec fn delete_runs(runs: Seq<InsertionRun>, s: int, e: int) -> Seq<InsertionRun>
    decreases runs.len(),
{
    if runs.len() == 0 {
        Seq::empty()
    } else {
        delete_runs(runs.drop_last(), s, e) + cut_run(runs.last(), chars(runs.drop_last(), true).len() as int, s, e)
    }
}

/// What cutting a run yields: the visible characters of `r` at the offsets
/// `s..e` are gone from the visible characters, all its characters stay,
/// and the pieces are well formed.
pub proof fn lemma_cut_run(r: InsertionRun, p: int, s: int, e: int)
    requires
        run_ok(r),
        s <= e,
    ensures
        ({
            let c = shown_chars(r, true);
            let a = clamp(s - p, c.len() as int);
            let b = clamp(e - p, c.len() as int);
            let pieces = cut_run(r, p, s, e);
            &&& chars(pieces, true) == c.take(a) + c.skip(b)
            &&& chars(pieces, false) == run_chars(r)
            &&& runs_ok(pieces)
            &&& pieces.len() >= 1
        }),
{
    let c = shown_chars(r, true);
    let n = c.len() as int;
    let a = clamp(s - p, n);
    let b = clamp(e - p, n);
    let pieces = cut_run(r, p, s, e);
    if !r.visible || a == b {
        lemma_chars_single(r, true);
        lemma_chars_single(r, false);
        assert(c.take(a) + c.skip(b) =~= c);
    } else {
        let left = InsertionRun { end: (r.start + a) as u64, ..r };
        let mid = InsertionRun { start: (r.start + a) as u64, end: (r.start + b) as u64, visible: false, ..r };
        let right = InsertionRun { start: (r.start + b) as u64, ..r };
        if a > 0 && b < n {
            assert(pieces =~= seq![left, mid, right]);
            lemma_chars_three(left, mid, right, true);
            lemma_chars_three(left, mid, right, false);
            assert(shown_chars(left, true) + shown_chars(mid, true) + shown_chars(right, true) =~= c.take(a) + c.skip(b));
            assert(run_chars(left) + run_chars(mid) + run_chars(right) =~= run_chars(r));
        } else if a > 0 {
            assert(pieces =~= seq![left, mid]);
            lemma_chars_two(left, mid, true);
            lemma_chars_two(left, mid, false);
            assert(shown_chars(left, true) + shown_chars(mid, true) =~= c.take(a) + c.skip(b));
            assert(run_chars(left) + run_chars(mid) =~= run_chars(r));
        } else if b < n {
            assert(pieces =~= seq![mid, right]);
            lemma_chars_two(mid, right, true);
            lemma_chars_two(mid, right, false);
            assert(shown_chars(mid, true) + shown_chars(right, true) =~= c.take(a) + c.skip(b));
            assert(run_chars(mid) + run_chars(right) =~= run_chars(r));
        } else {
            assert(pieces =~= seq![mid]);
            lemma_chars_single(mid, true);
            lemma_chars_single(mid, false);
            assert(shown_chars(mid, true) =~= c.take(a) + c.skip(b));
            assert(run_chars(mid) =~= run_chars(r));
        }
    }
}

/// What deleting the visible offsets `s..e` does to the characters of
/// well-formed runs: the visible characters lose `s..e`, all characters stay,
/// and the runs stay well formed and no fewer.
pub proof fn lemma_delete_runs(runs: Seq<InsertionRun>, s: int, e: int)
    requires
        runs_ok(runs),
        0 <= s <= e,
    ensures
        chars(delete_runs(runs, s, e), true) == cut(chars(runs, true), s, e),
        chars(delete_runs(runs, s, e), false) == chars(runs, false),
        runs_ok(delete_runs(runs, s, e)),
        delete_runs(runs, s, e).len() >= runs.len(),
    decreases runs.len(),
{
    if runs.len() == 0 {
        assert(cut(Seq::<Char>::empty(), s, e) =~= Seq::<Char>::empty());
    } else {
        let init = runs.drop_last();
        let r = runs.last();
        assert(runs_ok(init)) by {
            assert forall|j: int| 0 <= j < init.len() implies run_ok(#[trigger] init[j]) by {
                assert(init[j] == runs[j]);
            }
        }
        assert(run_ok(runs[runs.len() - 1]));
        lemma_delete_runs(init, s, e);
        let p = chars(init, true).len() as int;
        lemma_cut_run(r, p, s, e);
        let pieces = cut_run(r, p, s, e);
        lemma_chars_concat(delete_runs(init, s, e), pieces, true);
        lemma_chars_concat(delete_runs(init, s, e), pieces, false);
        lemma_cut_push(chars(init, true), shown_chars(r, true), s, e);
        let d = delete_runs(runs, s, e);
        assert forall|j: int| 0 <= j < d.len() implies run_ok(#[trigger] d[j]) by {
            let di = delete_runs(init, s, e);
            if j < di.len() {
                assert(d[j] == di[j]);
            } else {
                assert(d[j] == pieces[j - di.len()]);
            }
        }
    }
}

/// Cutting `s..e` out of `v + c` cuts it out of `v`, and cuts what of it
/// falls within `c` out of `c`.
pub proof fn lemma_cut_push(v: Seq<Char>, c: Seq<Char>, s: int, e: int)
    requires
        0 <= s <= e,
    ensures
        ({
            let p = v.len() as int;
            let a = clamp(s - p, c.len() as int);
            let b = clamp(e - p, c.len() as int);
            cut(v + c, s, e) == cut(v, s, e) + c.take(a) + c.skip(b)
        }),
{
    let p = v.len() as int;
    let a = clamp(s - p, c.len() as int);
    let b = clamp(e - p, c.len() as int);
    assert(cut(v + c, s, e) =~= cut(v, s, e) + c.take(a) + c.skip(b));
}

} // verus!
