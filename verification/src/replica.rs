use crate::run::{
    chars, cut, cut_run, delete_runs, lemma_chars_push, lemma_delete_runs, lemma_chars_around, lemma_chars_concat, lemma_chars_single, lemma_chars_splice, lemma_chars_take,
    lemma_chars_take_monotonic, lemma_chars_take_next, lemma_chars_three, lemma_chars_two, lemma_cut_push,
    lemma_runs_ok_splice, run_chars, run_ok, runs_ok, shown_chars, Anchor, Char, CrdtEdit, InsertionRun,
};
use std::collections::VecDeque;
use uuid::Uuid;
use vstd::prelude::*;

verus! {

/// Whether the 128 bits of a UUID, read big-endian, carry the version
/// number 4 (randomly generated) and the RFC 4122 variant.
pub open spec fn is_random_uuid(bits: u128) -> bool {
    &&& (bits >> 76u128) & 0xfu128 == 4u128
    &&& (bits >> 62u128) & 0x3u128 == 2u128
}

/// A randomly generated UUID is never the nil UUID.
pub proof fn lemma_random_uuid_is_not_nil(bits: u128)
    requires
        is_random_uuid(bits),
    ensures
        bits != 0,
{
    assert((bits >> 76u128) & 0xfu128 == 4u128 ==> bits != 0u128) by (bit_vector);
}

/// The nil UUID has every field zero; in particular its first field.
pub proof fn lemma_nil_uuid_first_field(bits: u128)
    requires
        bits == 0,
    ensures
        bits >> 96u128 == 0,
{
    assert(bits == 0u128 ==> bits >> 96u128 == 0u128) by (bit_vector);
}

/// The bits of a version 4 UUID built from the random bits `bits`: the
/// version nibble is set to 4 and the variant bits to `10`, every other bit
/// is kept.
pub open spec fn random_uuid_from(bits: u128) -> u128 {
    (bits & 0xFFFF_FFFF_FFFF_0FFF_3FFF_FFFF_FFFF_FFFFu128) | 0x0000_0000_0000_4000_8000_0000_0000_0000u128
}

/// A UUID built from random bits is a random UUID, and so not the nil one.
pub proof fn lemma_random_uuid_from(bits: u128)
    ensures
        is_random_uuid(random_uuid_from(bits)),
        random_uuid_from(bits) != 0,
{
    let r = random_uuid_from(bits);
    assert(r == (bits & 0xFFFF_FFFF_FFFF_0FFF_3FFF_FFFF_FFFF_FFFFu128) | 0x0000_0000_0000_4000_8000_0000_0000_0000u128
        ==> (r >> 76u128) & 0xfu128 == 4u128 && (r >> 62u128) & 0x3u128 == 2u128) by (bit_vector);
    lemma_random_uuid_is_not_nil(r);
}

/// Calls `uuid::Builder::from_random_bytes` on the big-endian bytes of
/// `bits` and reads the UUID back with `Uuid::as_u128`. Claimed of it: the
/// result is `bits` with the version nibble set to 4 (`with_version`) and the
/// variant bits set to `10` (`with_variant`), every other bit kept.
#[verifier::external_body]
fn uuid_from_random_bits(bits: u128) -> (uuid: u128)
    ensures
        uuid == random_uuid_from(bits),
{
    uuid::Builder::from_random_bytes(bits.to_be_bytes()).into_uuid().as_u128()
}

/// Calls `uuid::Uuid::nil` and reads it with `Uuid::as_u128`. Claimed of it:
/// the nil UUID has all its bits zero.
#[verifier::external_body]
fn nil_uuid_bits() -> (bits: u128)
    ensures
        bits == 0,
{
    Uuid::nil().as_u128()
}

/// Calls `uuid::Uuid::from_u128` on `bits` and returns the first of the
/// fields that `Uuid::as_fields` gives. Claimed of it: that field is the
/// first four bytes of the UUID read big-endian, that is the top 32 bits of
/// `bits`.
#[verifier::external_body]
fn uuid_first_field(bits: u128) -> (d1: u32)
    ensures
        d1 as u128 == bits >> 96u128,
{
    Uuid::from_u128(bits).as_fields().0
}

/// The identifier of a replica: a UUID, held as its 128 bits read
/// big-endian, so that the order of identifiers is the order of the UUIDs.
#[derive(Copy, Clone, PartialEq, Eq, PartialOrd, Ord, Structural)]
pub struct ReplicaId(u128);

impl View for ReplicaId {
    type V = u128;

    closed spec fn view(&self) -> u128 {
        self.0
    }
}

impl ReplicaId {
    /// The 128 bits of the identifier, read big-endian.
    pub fn as_u128(&self) -> (bits: u128)
        ensures
            bits == self@,
    {
        self.0
    }

    /// The first 32 bits of the identifier.
    pub fn as_u32(&self) -> (r: u32)
        ensures
            r as u128 == self@ >> 96u128,
    {
        uuid_first_field(self.0)
    }

    /// Creates the identifier of a random (version 4) UUID from random bits
    /// drawn by the caller; it is never the nil identifier.
    pub fn from_random_bits(bits: u128) -> (id: Self)
        ensures
            id@ == random_uuid_from(bits),
            is_random_uuid(id@),
            id@ != 0,
    {
        proof {
            lemma_random_uuid_from(bits);
        }
        Self(uuid_from_random_bits(bits))
    }

    /// The nil identifier, the one whose bytes are all zeros.
    pub closed spec fn nil() -> Self {
        ReplicaId(0)
    }

    /// Returns the "nil" identifier, the one whose bytes are all zeros.
    pub fn zero() -> (id: Self)
        ensures
            id@ == 0,
            id == ReplicaId::nil(),
    {
        Self(nil_uuid_bits())
    }
}

/// One end of a range of offsets, as `core::ops::RangeBounds` reports it.
#[derive(Copy, Clone, Debug, PartialEq, Eq, Structural)]
pub enum Bound {
    /// The range includes this offset.
    Included(usize),
    /// The range stops just short of this offset.
    Excluded(usize),
    /// The range is open on this side.
    Unbounded,
}

/// The first offset of a range whose start is `start_bound`, where `lo` is
/// the first offset there is.
pub open spec fn start_offset(start_bound: Bound, lo: usize) -> int {
    match start_bound {
        Bound::Included(n) => n as int,
        Bound::Excluded(n) => n + 1,
        Bound::Unbounded => lo as int,
    }
}

/// The offset just past a range whose end is `end_bound`, where `hi` is the
/// offset just past the last one there is.
pub open spec fn end_offset(end_bound: Bound, hi: usize) -> int {
    match end_bound {
        Bound::Included(n) => n + 1,
        Bound::Excluded(n) => n as int,
        Bound::Unbounded => hi as int,
    }
}

/// Turns the two bounds of a range into the half-open interval
/// `start..end` that it covers, with `lo..hi` standing for an open side.
pub fn range_bounds_to_start_end(start_bound: Bound, end_bound: Bound, lo: usize, hi: usize) -> (r: (usize, usize))
    requires
        start_bound != Bound::Excluded(usize::MAX),
        end_bound != Bound::Included(usize::MAX),
    ensures
        r.0 == start_offset(start_bound, lo),
        r.1 == end_offset(end_bound, hi),
{
    let start = match start_bound {
        Bound::Included(n) => n,
        Bound::Excluded(n) => n + 1,
        Bound::Unbounded => lo,
    };
    let end = match end_bound {
        Bound::Included(n) => n + 1,
        Bound::Excluded(n) => n,
        Bound::Unbounded => hi,
    };
    (start, end)
}

} // verus!

verus! {

/// What an insertion does to the run that holds its offset.
#[derive(Copy, Clone, PartialEq, Eq, Structural)]
pub enum InsertStep {
    /// The new characters continue the run, which is the replica's own last
    /// insertion: the edit is anchored at the run's end and carries the
    /// run's Lamport timestamp; no timestamp is issued.
    Extend { anchor: Anchor, lamport_ts: u64 },
    /// The new characters go before the run, at the start of the text, in a
    /// run of their own anchored at the origin, with a new Lamport timestamp.
    AtStart { lamport_ts: u64 },
    /// The run is split at the offset and the new characters go in between,
    /// in a run of their own anchored after the character before them, with
    /// a new Lamport timestamp.
    Split { anchor: Anchor, lamport_ts: u64 },
}

/// The decision that an insertion at `offset_in_run` within `run` makes,
/// by replica `id` whose next character timestamp is `character_ts` and
/// whose Lamport clock reads `clock`.
pub open spec fn spec_insertion_step(
    offset_in_run: int,
    run: InsertionRun,
    id: ReplicaId,
    character_ts: u64,
    clock: u64,
) -> InsertStep {
    if offset_in_run == run.end - run.start && id == run.replica_id && character_ts == run.end {
        InsertStep::Extend {
            anchor: Anchor { replica_id: run.replica_id, offset: run.end },
            lamport_ts: run.lamport_ts,
        }
    } else if offset_in_run == 0 {
        InsertStep::AtStart { lamport_ts: clock }
    } else {
        InsertStep::Split {
            anchor: Anchor { replica_id: run.replica_id, offset: (run.start + offset_in_run) as u64 },
            lamport_ts: clock,
        }
    }
}

/// Decides what an insertion at `offset_in_run` within `run` does.
pub fn insertion_step(
    offset_in_run: u64,
    run: &InsertionRun,
    id: ReplicaId,
    character_ts: u64,
    clock: u64,
) -> (step: InsertStep)
    requires
        run.start <= run.end,
        offset_in_run <= run.end - run.start,
    ensures
        step == spec_insertion_step(offset_in_run as int, *run, id, character_ts, clock),
{
    if offset_in_run == run.end - run.start && id == run.replica_id && character_ts == run.end {
        InsertStep::Extend {
            anchor: Anchor::new(run.replica_id, run.end),
            lamport_ts: run.lamport_ts,
        }
    } else if offset_in_run == 0 {
        InsertStep::AtStart { lamport_ts: clock }
    } else {
        InsertStep::Split {
            anchor: Anchor::new(run.replica_id, run.start + offset_in_run),
            lamport_ts: clock,
        }
    }
}

/// The edit that an insertion step of `len` characters by `id` sends.
pub open spec fn step_edit(step: InsertStep, id: ReplicaId, len: u64) -> CrdtEdit {
    match step {
        InsertStep::Extend { anchor, lamport_ts } => CrdtEdit::Insertion { anchor, replica_id: id, len, lamport_ts },
        InsertStep::AtStart { lamport_ts } => CrdtEdit::Insertion {
            anchor: Anchor::spec_origin(),
            replica_id: id,
            len,
            lamport_ts,
        },
        InsertStep::Split { anchor, lamport_ts } => CrdtEdit::Insertion { anchor, replica_id: id, len, lamport_ts },
    }
}

/// The Lamport clock after an insertion step: one tick ahead unless the
/// step extends a run.
pub open spec fn step_clock(step: InsertStep, clock: u64) -> int {
    match step {
        InsertStep::Extend { .. } => clock as int,
        _ => clock + 1,
    }
}

/// The characters `(id, character_ts) .. (id, character_ts + len - 1)`.
pub open spec fn new_chars(id: ReplicaId, character_ts: u64, len: u64) -> Seq<Char> {
    Seq::new(len as nat, |j: int| (id, (character_ts + j) as u64))
}

/// Whether run `i` holds the visible offset `offset`: the first run when the
/// offset is 0, else the run whose visible characters reach the offset from
/// strictly below it.
pub open spec fn holds_offset(runs: Seq<InsertionRun>, offset: int, i: int) -> bool {
    &&& 0 <= i < runs.len()
    &&& if offset == 0 {
        i == 0
    } else {
        chars(runs.take(i), true).len() < offset <= chars(runs.take(i + 1), true).len()
    }
}

/// The run that holds the visible offset `offset`.
pub open spec fn run_holding(runs: Seq<InsertionRun>, offset: int) -> int {
    choose|i: int| holds_offset(runs, offset, i)
}

/// At most one run holds an offset.
pub proof fn lemma_holds_offset_unique(runs: Seq<InsertionRun>, offset: int, i: int, j: int)
    requires
        holds_offset(runs, offset, i),
        holds_offset(runs, offset, j),
    ensures
        i == j,
{
    if offset != 0 {
        if i < j {
            lemma_chars_take_monotonic(runs, i + 1, j, true);
        } else if j < i {
            lemma_chars_take_monotonic(runs, j + 1, i, true);
        }
    }
}

/// A run that holds an offset is the one `run_holding` names.
pub proof fn lemma_run_holding(runs: Seq<InsertionRun>, offset: int, i: int)
    requires
        holds_offset(runs, offset, i),
    ensures
        run_holding(runs, offset) == i,
{
    let j = run_holding(runs, offset);
    lemma_holds_offset_unique(runs, offset, i, j);
}

/// A run that holds an offset exists, looking from run `i` on.
proof fn lemma_find_holding(runs: Seq<InsertionRun>, offset: int, i: int)
    requires
        0 <= i < runs.len(),
        chars(runs.take(i), true).len() < offset <= chars(runs, true).len(),
    ensures
        exists|j: int| holds_offset(runs, offset, j),
    decreases runs.len() - i,
{
    lemma_chars_take_next(runs, i, true);
    if offset <= chars(runs.take(i + 1), true).len() {
        assert(holds_offset(runs, offset, i));
    } else {
        if i + 1 == runs.len() {
            assert(runs.take(i + 1) =~= runs);
        }
        lemma_find_holding(runs, offset, i + 1);
    }
}

/// Every visible offset of the text, its end included, is held by a run.
pub proof fn lemma_holding_run(runs: Seq<InsertionRun>, offset: int)
    requires
        runs.len() >= 1,
        0 <= offset <= chars(runs, true).len(),
    ensures
        holds_offset(runs, offset, run_holding(runs, offset)),
{
    if offset == 0 {
        assert(holds_offset(runs, 0, 0));
    } else {
        assert(runs.take(0) =~= Seq::<InsertionRun>::empty());
        lemma_find_holding(runs, offset, 0);
    }
}

/// Characters `new` of replica `id`, with timestamps from `ct` on, put in
/// among characters `all` that are distinct and in which `id`'s timestamps
/// are all below `ct`, leave them distinct.
pub proof fn lemma_distinct_after_insert(all: Seq<Char>, q: int, id: ReplicaId, ct: u64, len: u64)
    requires
        0 <= q <= all.len(),
        ct + len <= u64::MAX,
        all.no_duplicates(),
        forall|j: int| 0 <= j < all.len() && (#[trigger] all[j]).0 == id ==> all[j].1 < ct,
    ensures
        (all.take(q) + new_chars(id, ct, len) + all.skip(q)).no_duplicates(),
{
    let new = new_chars(id, ct, len);
    let r = all.take(q) + new + all.skip(q);
    // The position in `all` of a character of `r` that is not new.
    assert forall|x: int, y: int| 0 <= x < r.len() && 0 <= y < r.len() && x != y implies r[x] != r[y] by {
        let in_new_x = q <= x < q + len;
        let in_new_y = q <= y < q + len;
        if in_new_x && in_new_y {
            assert(r[x] == new[x - q]);
            assert(r[y] == new[y - q]);
        } else if in_new_x {
            let yy = if y < q { y } else { y - len };
            assert(r[y] == all[yy]);
            assert(r[x] == new[x - q]);
            if r[y].0 == id {
                assert(all[yy].1 < ct);
            }
        } else if in_new_y {
            let xx = if x < q { x } else { x - len };
            assert(r[x] == all[xx]);
            assert(r[y] == new[y - q]);
            if r[x].0 == id {
                assert(all[xx].1 < ct);
            }
        } else {
            let xx = if x < q { x } else { x - len };
            let yy = if y < q { y } else { y - len };
            assert(r[x] == all[xx]);
            assert(r[y] == all[yy]);
        }
    }
}

/// The anchor of the edit that an insertion step sends.
pub open spec fn step_anchor(step: InsertStep) -> Anchor {
    match step {
        InsertStep::Extend { anchor, .. } => anchor,
        InsertStep::AtStart { .. } => Anchor::spec_origin(),
        InsertStep::Split { anchor, .. } => anchor,
    }
}

/// Characters `new` put in among `all` at `q` are, for a replica `id` whose
/// characters in `all` all have timestamps below `ct`, the only ones of `id`
/// with timestamps in `ct..ct + len`: every character of `id` in the result
/// has a timestamp below `ct + len`.
pub proof fn lemma_own_chars_after_insert(all: Seq<Char>, q: int, id: ReplicaId, ct: u64, len: u64)
    requires
        0 <= q <= all.len(),
        forall|j: int| 0 <= j < all.len() && (#[trigger] all[j]).0 == id ==> all[j].1 < ct,
    ensures
        ({
            let r = all.take(q) + new_chars(id, ct, len) + all.skip(q);
            forall|j: int| 0 <= j < r.len() && (#[trigger] r[j]).0 == id ==> r[j].1 < ct + len
        }),
{
    let new = new_chars(id, ct, len);
    let r = all.take(q) + new + all.skip(q);
    assert forall|j: int| 0 <= j < r.len() && (#[trigger] r[j]).0 == id implies r[j].1 < ct + len by {
        if j < q {
            assert(r[j] == all[j]);
        } else if j < q + len {
            assert(r[j] == new[j - q]);
        } else {
            assert(r[j] == all[j - len]);
        }
    }
}

/// An insertion at a nonzero visible offset never goes to the start of the
/// text: its edit is anchored just after the visible character before the
/// offset.
pub proof fn lemma_insertion_anchor(r: ReplicaView, offset: int)
    requires
        r.wf(),
        0 < offset <= r.vis().len(),
    ensures
        !(r.step_at(offset) is AtStart),
        step_anchor(r.step_at(offset)) == (Anchor {
            replica_id: r.vis()[offset - 1].0,
            offset: (r.vis()[offset - 1].1 + 1) as u64,
        }),
{
    lemma_holding_run(r.runs, offset);
    let i = r.holding_run(offset);
    let run = r.runs[i];
    let k = r.offset_in_run(offset);
    let p = chars(r.runs.take(i), true).len();
    lemma_chars_around(r.runs, i, true);
    lemma_chars_take_next(r.runs, i, true);
    assert(run_ok(run));
    let shown = shown_chars(run, true);
    assert(0 < k <= shown.len());
    assert(r.vis()[offset - 1] == shown[k - 1]);
    assert(run.visible);
}

/// The abstract state of a [`Replica`].
pub struct ReplicaView {
    /// The identifier of the replica.
    pub id: ReplicaId,
    /// The runs of characters, in text order.
    pub runs: Seq<InsertionRun>,
    /// The character timestamp the next inserted character gets.
    pub character_ts: u64,
    /// The Lamport timestamp the next insertion that is not an extension
    /// gets.
    pub lamport_clock: u64,
    /// The edits received but not applied yet.
    pub pending: Seq<CrdtEdit>,
}

impl ReplicaView {
    /// The visible characters, in text order: the text.
    pub open spec fn vis(self) -> Seq<Char> {
        chars(self.runs, true)
    }

    /// All characters ever inserted, deleted ones included, in text order.
    pub open spec fn all(self) -> Seq<Char> {
        chars(self.runs, false)
    }

    /// The run that holds the visible offset `offset`.
    pub open spec fn holding_run(self, offset: int) -> int {
        run_holding(self.runs, offset)
    }

    /// Where the visible offset `offset` falls within the run that holds it.
    pub open spec fn offset_in_run(self, offset: int) -> int {
        offset - chars(self.runs.take(self.holding_run(offset)), true).len()
    }

    /// What an insertion at the visible offset `offset` does.
    pub open spec fn step_at(self, offset: int) -> InsertStep {
        spec_insertion_step(
            self.offset_in_run(offset),
            self.runs[self.holding_run(offset)],
            self.id,
            self.character_ts,
            self.lamport_clock,
        )
    }

    /// Where an insertion at the visible offset `offset` puts the new
    /// characters among all the characters.
    pub open spec fn insert_position(self, offset: int) -> int {
        chars(self.runs.take(self.holding_run(offset)), false).len() + self.offset_in_run(offset)
    }

    /// The run that an insertion of `len` characters by this replica makes:
    /// its next `len` character timestamps, visible, placed after `anchor`
    /// and stamped `lamport_ts`.
    pub open spec fn new_run(self, anchor: Anchor, lamport_ts: u64, len: u64) -> InsertionRun {
        InsertionRun {
            anchor,
            replica_id: self.id,
            start: self.character_ts,
            end: (self.character_ts + len) as u64,
            lamport_ts,
            visible: true,
        }
    }

    /// The runs that take the place of the run holding `offset` when `len`
    /// characters are inserted there: the run extended; the new run then
    /// the run; or the run's part before the offset, the new run, and the
    /// run's part after the offset if there is one.
    pub open spec fn insert_pieces(self, offset: int, len: u64) -> Seq<InsertionRun> {
        let run = self.runs[self.holding_run(offset)];
        let k = self.offset_in_run(offset);
        match self.step_at(offset) {
            InsertStep::Extend { .. } => seq![InsertionRun { end: (run.end + len) as u64, ..run }],
            InsertStep::AtStart { lamport_ts } => seq![self.new_run(Anchor::spec_origin(), lamport_ts, len), run],
            InsertStep::Split { anchor, lamport_ts } => {
                let left = InsertionRun { end: (run.start + k) as u64, ..run };
                let right = InsertionRun { start: (run.start + k) as u64, ..run };
                if k < run.end - run.start {
                    seq![left, self.new_run(anchor, lamport_ts, len), right]
                } else {
                    seq![left, self.new_run(anchor, lamport_ts, len)]
                }
            },
        }
    }

    /// The replica after recording the insertion of `len` characters at the
    /// visible offset `offset`.
    pub open spec fn after_insert(self, offset: int, len: u64) -> ReplicaView {
        if len == 0 {
            self
        } else {
            let i = self.holding_run(offset);
            ReplicaView {
                runs: self.runs.take(i) + self.insert_pieces(offset, len) + self.runs.skip(i + 1),
                character_ts: (self.character_ts + len) as u64,
                lamport_clock: step_clock(self.step_at(offset), self.lamport_clock) as u64,
                ..self
            }
        }
    }

    /// The edit that recording the insertion of `len` characters at the
    /// visible offset `offset` sends.
    pub open spec fn insert_edit(self, offset: int, len: u64) -> CrdtEdit {
        if len == 0 {
            CrdtEdit::NoOp
        } else {
            step_edit(self.step_at(offset), self.id, len)
        }
    }

    /// The replica after recording the deletion of the visible characters
    /// at offsets `s..e`.
    pub open spec fn after_delete(self, s: int, e: int) -> ReplicaView {
        if s == e {
            self
        } else {
            ReplicaView { runs: delete_runs(self.runs, s, e), ..self }
        }
    }

    /// Every character of this replica in the text, deleted or not, has a
    /// timestamp below the next one it hands out.
    pub open spec fn own_chars_before_clock(self) -> bool {
        forall|j: int|
            0 <= j < self.all().len() && (#[trigger] self.all()[j]).0 == self.id ==> self.all()[j].1
                < self.character_ts
    }

    /// The replica's well-formedness: there is at least one run, no run ends
    /// before it starts, no deleted run is empty, and the length of the text
    /// fits in a `u64`.
    pub open spec fn wf(self) -> bool {
        &&& self.runs.len() >= 1
        &&& runs_ok(self.runs)
        &&& self.vis().len() <= u64::MAX
    }
}

/// What the runs that take the place of the run holding `offset` hold: its
/// characters with the new ones put in at `offset`, and they are well
/// formed.
proof fn lemma_insert_pieces(r: ReplicaView, offset: int, len: u64)
    requires
        r.wf(),
        len > 0,
        0 <= offset <= r.vis().len(),
        r.character_ts + len <= u64::MAX,
    ensures
        ({
            let i = r.holding_run(offset);
            let run = r.runs[i];
            let k = r.offset_in_run(offset);
            let new = new_chars(r.id, r.character_ts, len);
            let pieces = r.insert_pieces(offset, len);
            &&& holds_offset(r.runs, offset, i)
            &&& 0 <= k <= shown_chars(run, true).len()
            &&& chars(pieces, true) == shown_chars(run, true).take(k) + new + shown_chars(run, true).skip(k)
            &&& chars(pieces, false) == run_chars(run).take(k) + new + run_chars(run).skip(k)
            &&& runs_ok(pieces)
        }),
{
    lemma_holding_run(r.runs, offset);
    let i = r.holding_run(offset);
    let run = r.runs[i];
    let k = r.offset_in_run(offset);
    let new = new_chars(r.id, r.character_ts, len);
    let pieces = r.insert_pieces(offset, len);
    let shown = shown_chars(run, true);
    lemma_chars_take_next(r.runs, i, true);
    assert(run_ok(run));
    match r.step_at(offset) {
        InsertStep::Extend { .. } => {
            let extended = InsertionRun { end: (run.end + len) as u64, ..run };
            lemma_chars_single(extended, true);
            lemma_chars_single(extended, false);
            assert(shown_chars(extended, true) =~= shown.take(k) + new + shown.skip(k));
            assert(run_chars(extended) =~= run_chars(run).take(k) + new + run_chars(run).skip(k));
        },
        InsertStep::AtStart { lamport_ts } => {
            let new_run = r.new_run(Anchor::spec_origin(), lamport_ts, len);
            lemma_chars_two(new_run, run, true);
            lemma_chars_two(new_run, run, false);
            assert(shown_chars(new_run, true) + shown =~= shown.take(k) + new + shown.skip(k));
            assert(run_chars(new_run) + run_chars(run) =~= run_chars(run).take(k) + new + run_chars(run).skip(k));
        },
        InsertStep::Split { anchor, lamport_ts } => {
            let left = InsertionRun { end: (run.start + k) as u64, ..run };
            let right = InsertionRun { start: (run.start + k) as u64, ..run };
            let new_run = r.new_run(anchor, lamport_ts, len);
            if k < run.end - run.start {
                lemma_chars_three(left, new_run, right, true);
                lemma_chars_three(left, new_run, right, false);
                assert(shown_chars(left, true) + shown_chars(new_run, true) + shown_chars(right, true) =~= shown.take(k)
                    + new + shown.skip(k));
                assert(run_chars(left) + run_chars(new_run) + run_chars(right) =~= run_chars(run).take(k) + new
                    + run_chars(run).skip(k));
            } else {
                lemma_chars_two(left, new_run, true);
                lemma_chars_two(left, new_run, false);
                assert(shown_chars(left, true) + shown_chars(new_run, true) =~= shown.take(k) + new + shown.skip(k));
                assert(run_chars(left) + run_chars(new_run) =~= run_chars(run).take(k) + new + run_chars(run).skip(k));
            }
        },
    }
}

/// What recording an insertion of `len > 0` characters at `offset` does to
/// a replica: the new characters, `(id, character_ts) ..`, go in at `offset`
/// in the text and at `insert_position(offset)` among all characters; the
/// replica stays well formed; the Lamport clock moves by at most one tick;
/// and timestamps stay fresh and characters distinct.
pub proof fn lemma_after_insert(r: ReplicaView, offset: int, len: u64)
    requires
        r.wf(),
        len > 0,
        0 <= offset <= r.vis().len(),
        r.vis().len() + len <= u64::MAX,
        r.character_ts + len <= u64::MAX,
        step_clock(r.step_at(offset), r.lamport_clock) <= u64::MAX,
    ensures
        ({
            let f = r.after_insert(offset, len);
            let new = new_chars(r.id, r.character_ts, len);
            let q = r.insert_position(offset);
            &&& f.wf()
            &&& f.id == r.id
            &&& f.pending == r.pending
            &&& f.character_ts == r.character_ts + len
            &&& f.lamport_clock == r.lamport_clock || f.lamport_clock == r.lamport_clock + 1
            &&& f.vis() == r.vis().take(offset) + new + r.vis().skip(offset)
            &&& f.all() == r.all().take(q) + new + r.all().skip(q)
            &&& f.vis().len() == r.vis().len() + len
            &&& f.all().len() == r.all().len() + len
            &&& r.own_chars_before_clock() ==> f.own_chars_before_clock()
            &&& r.own_chars_before_clock() && r.all().no_duplicates() ==> f.all().no_duplicates()
        }),
{
    lemma_insert_pieces(r, offset, len);
    let i = r.holding_run(offset);
    let k = r.offset_in_run(offset);
    let new = new_chars(r.id, r.character_ts, len);
    let pieces = r.insert_pieces(offset, len);
    lemma_chars_splice(r.runs, i, pieces, k, new, true);
    lemma_chars_splice(r.runs, i, pieces, k, new, false);
    lemma_runs_ok_splice(r.runs, i, pieces);
    let q = r.insert_position(offset);
    if r.own_chars_before_clock() {
        lemma_own_chars_after_insert(r.all(), q, r.id, r.character_ts, len);
        if r.all().no_duplicates() {
            lemma_distinct_after_insert(r.all(), q, r.id, r.character_ts, len);
        }
    }
}

/// What recording the deletion of the visible offsets `s..e` does to a
/// replica: the text loses `s..e`, all characters stay, and the replica
/// stays well formed, with the same identifier, clocks and pending edits.
pub proof fn lemma_after_delete(r: ReplicaView, s: int, e: int)
    requires
        r.wf(),
        0 <= s <= e <= r.vis().len(),
    ensures
        ({
            let f = r.after_delete(s, e);
            &&& f.wf()
            &&& f.id == r.id
            &&& f.character_ts == r.character_ts
            &&& f.lamport_clock == r.lamport_clock
            &&& f.pending == r.pending
            &&& f.vis() == r.vis().take(s) + r.vis().skip(e)
            &&& f.vis().len() == r.vis().len() - (e - s)
            &&& f.all() == r.all()
            &&& r.own_chars_before_clock() ==> f.own_chars_before_clock()
        }),
{
    let v = r.vis();
    if s == e {
        assert(v.take(s) + v.skip(e) =~= v);
    } else {
        lemma_delete_runs(r.runs, s, e);
        assert(cut(v, s, e) =~= v.take(s) + v.skip(e));
    }
}

/// Deleting the characters just inserted gives the text back; they stay
/// among all characters, deleted.
pub proof fn lemma_delete_undoes_insert(r: ReplicaView, offset: int, len: u64)
    requires
        r.wf(),
        len > 0,
        0 <= offset <= r.vis().len(),
        r.vis().len() + len <= u64::MAX,
        r.character_ts + len <= u64::MAX,
        step_clock(r.step_at(offset), r.lamport_clock) <= u64::MAX,
    ensures
        r.after_insert(offset, len).after_delete(offset, offset + len).vis() == r.vis(),
        r.after_insert(offset, len).after_delete(offset, offset + len).all().len() == r.all().len() + len,
{
    lemma_after_insert(r, offset, len);
    let f = r.after_insert(offset, len);
    lemma_after_delete(f, offset, offset + len);
    let v = r.vis();
    let new = new_chars(r.id, r.character_ts, len);
    assert((v.take(offset) + new + v.skip(offset)).take(offset) + (v.take(offset) + new + v.skip(offset)).skip(
        offset + len,
    ) =~= v);
}

/// Right after inserting `a` characters at `offset`, an insertion at the
/// end of them extends the run that holds them: it is anchored after the
/// last of them and carries the Lamport timestamp the first insertion sent.
proof fn lemma_extends_after_insert(r: ReplicaView, offset: int, a: u64)
    requires
        r.wf(),
        a > 0,
        0 <= offset <= r.vis().len(),
        r.vis().len() + a <= u64::MAX,
        r.character_ts + a <= u64::MAX,
        step_clock(r.step_at(offset), r.lamport_clock) <= u64::MAX,
    ensures
        r.after_insert(offset, a).step_at(offset + a) == (InsertStep::Extend {
            anchor: Anchor { replica_id: r.id, offset: (r.character_ts + a) as u64 },
            lamport_ts: r.insert_edit(offset, a)->lamport_ts,
        }),
        r.after_insert(offset, a).holding_run(offset + a) == r.holding_run(offset) + (if r.step_at(offset) is Split {
            1int
        } else {
            0int
        }),
{
    lemma_after_insert(r, offset, a);
    lemma_insert_pieces(r, offset, a);
    let r1 = r.after_insert(offset, a);
    let i = r.holding_run(offset);
    let run = r.runs[i];
    let k = r.offset_in_run(offset);
    lemma_chars_take_next(r.runs, i, true);
    assert(run_ok(run));
    let ct = r.character_ts;
    let pieces = r.insert_pieces(offset, a);
    assert(r1.runs == r.runs.take(i) + pieces + r.runs.skip(i + 1));
    // `j` is where the run that now ends the new characters stands in `r1`.
    let j = match r.step_at(offset) {
        InsertStep::Split { .. } => i + 1,
        _ => i,
    };
    assert(r1.runs.take(i) =~= r.runs.take(i));
    let t = r1.runs[j];
    assert(t == pieces[j - i]);
    assert(t.replica_id == r.id && t.end == ct + a && t.visible);
    assert(t.lamport_ts == r.insert_edit(offset, a)->lamport_ts);
    if j == i + 1 {
        assert(r1.runs.take(i + 1) =~= r.runs.take(i).push(pieces[0]));
        lemma_chars_push(r.runs.take(i), pieces[0], true);
        assert(shown_chars(pieces[0], true).len() == k);
    }
    lemma_chars_take_next(r1.runs, j, true);
    assert(chars(r1.runs.take(j), true).len() == offset + a - (t.end - t.start));
    assert(holds_offset(r1.runs, offset + a, j));
    lemma_run_holding(r1.runs, offset + a, j);
    assert(r1.offset_in_run(offset + a) == t.end - t.start);
}

/// Inserting `a` characters at `offset` and then `b` more right after them
/// leaves the replica just as inserting the `a + b` characters at once does:
/// the second insertion extends the run the first one made or extended.
pub proof fn lemma_insertions_merge(r: ReplicaView, offset: int, a: u64, b: u64)
    requires
        r.wf(),
        a > 0,
        b > 0,
        0 <= offset <= r.vis().len(),
        r.vis().len() + a + b <= u64::MAX,
        r.character_ts + a + b <= u64::MAX,
        step_clock(r.step_at(offset), r.lamport_clock) <= u64::MAX,
    ensures
        r.after_insert(offset, a).after_insert(offset + a, b) == r.after_insert(offset, (a + b) as u64),
{
    lemma_extends_after_insert(r, offset, a);
    lemma_insert_pieces(r, offset, a);
    lemma_insert_pieces(r, offset, (a + b) as u64);
    let r1 = r.after_insert(offset, a);
    let i = r.holding_run(offset);
    let pieces = r.insert_pieces(offset, a);
    assert(r1.runs == r.runs.take(i) + pieces + r.runs.skip(i + 1));
    assert(r1.runs.take(i) =~= r.runs.take(i));
    let r2 = r1.after_insert(offset + a, b);
    let r3 = r.after_insert(offset, (a + b) as u64);
    assert(r2.runs =~= r3.runs);
}

/// Typing on continues an insertion: an insertion right after the `a`
/// characters just inserted sends an edit by the same replica, anchored
/// after the last of them, with the same Lamport timestamp as the first
/// insertion's edit, and issues no new timestamp.
pub proof fn lemma_typing_on_continues_insertion(r: ReplicaView, offset: int, a: u64, b: u64)
    requires
        r.wf(),
        a > 0,
        b > 0,
        0 <= offset <= r.vis().len(),
        r.vis().len() + a + b <= u64::MAX,
        r.character_ts + a + b <= u64::MAX,
        step_clock(r.step_at(offset), r.lamport_clock) <= u64::MAX,
    ensures
        ({
            let e1 = r.insert_edit(offset, a);
            let r1 = r.after_insert(offset, a);
            let e2 = r1.insert_edit(offset + a, b);
            &&& e1 is Insertion
            &&& e2 is Insertion
            &&& e2->lamport_ts == e1->lamport_ts
            &&& e2->replica_id == r.id
            &&& e2->len == b
            &&& e2->anchor == (Anchor { replica_id: r.id, offset: (r.character_ts + a) as u64 })
            &&& r1.after_insert(offset + a, b).lamport_clock == r1.lamport_clock
        }),
{
    lemma_insert_edit(r, offset, a);
    lemma_extends_after_insert(r, offset, a);
}

/// What an insertion of `len > 0` characters sends: an insertion by the
/// replica itself of exactly `len` characters, anchored, past the start of
/// the text, just after the visible character before the offset (at the
/// start, at the origin or, when it continues the replica's own empty first
/// run, after the character before its next timestamp), and stamped with
/// the clock whenever the clock ticks.
pub proof fn lemma_insert_edit(r: ReplicaView, offset: int, len: u64)
    requires
        r.wf(),
        len > 0,
        0 <= offset <= r.vis().len(),
        r.character_ts + len <= u64::MAX,
        step_clock(r.step_at(offset), r.lamport_clock) <= u64::MAX,
    ensures
        ({
            let e = r.insert_edit(offset, len);
            &&& e is Insertion
            &&& e->replica_id == r.id
            &&& e->len == len
            &&& offset > 0 ==> e->anchor == (Anchor {
                replica_id: r.vis()[offset - 1].0,
                offset: (r.vis()[offset - 1].1 + 1) as u64,
            })
            &&& offset == 0 ==> e->anchor.is_origin() || e->anchor == (Anchor {
                replica_id: r.id,
                offset: r.character_ts,
            })
            &&& r.after_insert(offset, len).lamport_clock != r.lamport_clock ==> e->lamport_ts == r.lamport_clock
        }),
{
    lemma_holding_run(r.runs, offset);
    if offset > 0 {
        lemma_insertion_anchor(r, offset);
    }
}

/// An edit of a text buffer that a replica records: `len` bytes inserted
/// at `offset`, or the bytes at `start..end` deleted.
#[derive(Copy, Clone, PartialEq, Eq, Structural)]
pub enum BufferEdit {
    Insert { offset: usize, len: u64 },
    Delete { start: usize, end: usize },
}

/// Whether a replica can record `edit`.
pub open spec fn edit_allowed(r: ReplicaView, edit: BufferEdit) -> bool {
    match edit {
        BufferEdit::Insert { offset, len } => {
            &&& offset <= r.vis().len()
            &&& r.vis().len() + len <= u64::MAX
            &&& r.character_ts + len <= u64::MAX
            &&& len > 0 ==> step_clock(r.step_at(offset as int), r.lamport_clock) <= u64::MAX
        },
        BufferEdit::Delete { start, end } => start <= end <= r.vis().len(),
    }
}

/// The replica after recording `edit`.
pub open spec fn apply_edit(r: ReplicaView, edit: BufferEdit) -> ReplicaView {
    match edit {
        BufferEdit::Insert { offset, len } => r.after_insert(offset as int, len),
        BufferEdit::Delete { start, end } => r.after_delete(start as int, end as int),
    }
}

/// The length of a buffer of length `n` after `edit`.
pub open spec fn edited_len(n: int, edit: BufferEdit) -> int {
    match edit {
        BufferEdit::Insert { len, .. } => n + len,
        BufferEdit::Delete { start, end } => n - (end - start),
    }
}

/// Whether a replica can record `edits`, one after the other.
pub open spec fn edits_allowed(r: ReplicaView, edits: Seq<BufferEdit>) -> bool
    decreases edits.len(),
{
    edits.len() == 0 || (edit_allowed(r, edits[0]) && edits_allowed(apply_edit(r, edits[0]), edits.skip(1)))
}

/// The replica after recording `edits`, one after the other.
pub open spec fn apply_edits(r: ReplicaView, edits: Seq<BufferEdit>) -> ReplicaView
    decreases edits.len(),
{
    if edits.len() == 0 {
        r
    } else {
        apply_edits(apply_edit(r, edits[0]), edits.skip(1))
    }
}

/// The length of a buffer of length `n` after `edits`.
pub open spec fn edited_len_all(n: int, edits: Seq<BufferEdit>) -> int
    decreases edits.len(),
{
    if edits.len() == 0 {
        n
    } else {
        edited_len_all(edited_len(n, edits[0]), edits.skip(1))
    }
}

/// A replica that mirrors a buffer keeps the buffer's length: whatever edits
/// both record, the replica's text is as long as the buffer.
pub proof fn lemma_len_tracks_buffer(r: ReplicaView, edits: Seq<BufferEdit>, n: int)
    requires
        r.wf(),
        r.vis().len() == n,
        edits_allowed(r, edits),
    ensures
        apply_edits(r, edits).wf(),
        apply_edits(r, edits).vis().len() == edited_len_all(n, edits),
    decreases edits.len(),
{
    if edits.len() > 0 {
        let edit = edits[0];
        match edit {
            BufferEdit::Insert { offset, len } => {
                if len > 0 {
                    lemma_after_insert(r, offset as int, len);
                }
            },
            BufferEdit::Delete { start, end } => {
                lemma_after_delete(r, start as int, end as int);
            },
        }
        lemma_len_tracks_buffer(apply_edit(r, edit), edits.skip(1), edited_len(n, edit));
    }
}

/// No character is ever inserted twice: recording edits keeps the
/// characters of a replica distinct and its own timestamps below its clock.
pub proof fn lemma_chars_stay_distinct(r: ReplicaView, edits: Seq<BufferEdit>)
    requires
        r.wf(),
        r.own_chars_before_clock(),
        r.all().no_duplicates(),
        edits_allowed(r, edits),
    ensures
        apply_edits(r, edits).own_chars_before_clock(),
        apply_edits(r, edits).all().no_duplicates(),
    decreases edits.len(),
{
    if edits.len() > 0 {
        let edit = edits[0];
        match edit {
            BufferEdit::Insert { offset, len } => {
                if len > 0 {
                    lemma_after_insert(r, offset as int, len);
                }
            },
            BufferEdit::Delete { start, end } => {
                lemma_after_delete(r, start as int, end as int);
            },
        }
        lemma_chars_stay_distinct(apply_edit(r, edit), edits.skip(1));
    }
}

/// A replica of a text: the characters it holds, in runs, with their
/// identities, and the clocks that stamp new insertions.
pub struct Replica {
    id: ReplicaId,
    runs: Vec<InsertionRun>,
    character_ts: u64,
    lamport_clock: u64,
    pending: VecDeque<CrdtEdit>,
}

impl View for Replica {
    type V = ReplicaView;

    closed spec fn view(&self) -> ReplicaView {
        ReplicaView {
            id: self.id,
            runs: self.runs@,
            character_ts: self.character_ts,
            lamport_clock: self.lamport_clock,
            pending: self.pending@,
        }
    }
}

/// The number of visible characters of a run.
fn visible_len(run: &InsertionRun) -> (n: u64)
    requires
        run.start <= run.end,
    ensures
        n == shown_chars(*run, true).len(),
{
    if run.visible {
        run.end - run.start
    } else {
        0
    }
}

/// Appends `run` to `out`, with its visible characters at the visible
/// offsets `s..e` of the text deleted, where `pos` visible characters come
/// before it.
fn push_deleted(out: &mut Vec<InsertionRun>, run: InsertionRun, pos: u64, s: u64, e: u64)
    requires
        run_ok(run),
        s <= e,
    ensures
        final(out)@ == old(out)@ + cut_run(run, pos as int, s as int, e as int),
{
    let n = visible_len(&run);
    let a = if s <= pos {
        0
    } else if s - pos >= n {
        n
    } else {
        s - pos
    };
    let b = if e <= pos {
        0
    } else if e - pos >= n {
        n
    } else {
        e - pos
    };
    let ghost before = out@;
    if !run.visible || a == b {
        out.push(run);
    } else {
        let mid = InsertionRun { start: run.start + a, end: run.start + b, visible: false, ..run };
        if a > 0 {
            let left = InsertionRun { end: run.start + a, ..run };
            out.push(left);
        }
        out.push(mid);
        if b < n {
            let right = InsertionRun { start: run.start + b, ..run };
            out.push(right);
        }
    }
    proof {
        assert(out@ =~= before + cut_run(run, pos as int, s as int, e as int));
    }
}

/// The runs `runs` with run `i` replaced by `pieces`.
fn splice_runs(runs: &Vec<InsertionRun>, i: usize, pieces: Vec<InsertionRun>) -> (r: Vec<InsertionRun>)
    requires
        i < runs.len(),
    ensures
        r@ == runs@.take(i as int) + pieces@ + runs@.skip(i + 1),
{
    let mut r: Vec<InsertionRun> = Vec::new();
    let mut j: usize = 0;
    while j < i
        invariant
            j <= i < runs.len(),
            r@ == runs@.take(j as int),
        decreases i - j,
    {
        r.push(runs[j]);
        j = j + 1;
        proof {
            assert(r@ =~= runs@.take(j as int));
        }
    }
    let mut k: usize = 0;
    while k < pieces.len()
        invariant
            j == i < runs.len(),
            k <= pieces.len(),
            r@ == runs@.take(i as int) + pieces@.take(k as int),
        decreases pieces.len() - k,
    {
        r.push(pieces[k]);
        k = k + 1;
        proof {
            assert(r@ =~= runs@.take(i as int) + pieces@.take(k as int));
        }
    }
    j = i + 1;
    proof {
        assert(r@ =~= runs@.take(i as int) + pieces@ + runs@.subrange(i + 1, j as int));
    }
    while j < runs.len()
        invariant
            i + 1 <= j <= runs.len(),
            r@ == runs@.take(i as int) + pieces@ + runs@.subrange(i + 1, j as int),
        decreases runs.len() - j,
    {
        r.push(runs[j]);
        j = j + 1;
        proof {
            assert(r@ =~= runs@.take(i as int) + pieces@ + runs@.subrange(i + 1, j as int));
        }
    }
    proof {
        assert(runs@.subrange(i + 1, j as int) =~= runs@.skip(i + 1));
    }
    r
}

impl Replica {
    /// A replica is always well formed.
    #[verifier::type_invariant]
    spec fn inv(self) -> bool {
        self@.wf()
    }

    /// Creates the replica `id` of a text of `len` characters, which it
    /// holds as one run inserted by itself with the first Lamport timestamp.
    pub fn new(id: ReplicaId, len: u64) -> (r: Self)
        requires
            id@ != 0,
        ensures
            r@.wf(),
            r@.id == id,
            r@.vis() == Seq::new(len as nat, |t: int| (id, t as u64)),
            r@.all() == r@.vis(),
            r@.character_ts == len,
            r@.own_chars_before_clock(),
            r@.all().no_duplicates(),
            r@.lamport_clock == 1,
            r@.pending.len() == 0,
            r@.runs == seq![
                InsertionRun {
                    anchor: Anchor::spec_origin(),
                    replica_id: id,
                    start: 0,
                    end: len,
                    lamport_ts: 0,
                    visible: true,
                },
            ],
    {
        let mut lamport_clock: u64 = 0;
        let origin_run = InsertionRun {
            anchor: Anchor::origin(),
            replica_id: id,
            start: 0,
            end: len,
            lamport_ts: lamport_clock,
            visible: true,
        };
        lamport_clock = lamport_clock + 1;
        let mut runs: Vec<InsertionRun> = Vec::new();
        runs.push(origin_run);
        proof {
            lemma_chars_single(origin_run, true);
            lemma_chars_single(origin_run, false);
            assert(run_chars(origin_run) =~= Seq::new(len as nat, |t: int| (id, t as u64)));
        }
        Replica { id, runs, character_ts: len, lamport_clock, pending: VecDeque::new() }
    }

    /// The identifier of the replica.
    pub fn id(&self) -> (id: ReplicaId)
        ensures
            id == self@.id,
    {
        self.id
    }

    /// The character timestamp the next inserted character gets.
    pub fn character_ts(&self) -> (ts: u64)
        ensures
            ts == self@.character_ts,
    {
        self.character_ts
    }

    /// The Lamport timestamp the next insertion that does not extend a run
    /// gets.
    pub fn lamport_clock(&self) -> (ts: u64)
        ensures
            ts == self@.lamport_clock,
    {
        self.lamport_clock
    }

    /// The number of visible characters, as a `u64`.
    pub fn summary(&self) -> (n: u64)
        ensures
            n == self@.vis().len(),
    {
        proof {
            use_type_invariant(self);
        }
        let mut sum: u64 = 0;
        let mut i: usize = 0;
        while i < self.runs.len()
            invariant
                self@.wf(),
                0 <= i <= self.runs.len(),
                sum == chars(self.runs@.take(i as int), true).len(),
            decreases self.runs.len() - i,
        {
            proof {
                lemma_chars_take_next(self.runs@, i as int, true);
                lemma_chars_take(self.runs@, i + 1, true);
                assert(run_ok(self.runs@[i as int]));
            }
            let n = visible_len(&self.runs[i]);
            sum = sum + n;
            i = i + 1;
        }
        proof {
            assert(self.runs@.take(i as int) =~= self.runs@);
        }
        sum
    }

    /// The number of visible characters.
    pub fn len(&self) -> (n: usize)
        ensures
            n == self@.vis().len() as usize,
    {
        let n = self.summary();
        n as usize
    }

    /// Finds the run that holds the visible offset `off`, and the number of
    /// visible characters before it.
    fn locate(&self, off: u64) -> (r: (usize, u64))
        requires
            self@.wf(),
            off <= self@.vis().len(),
        ensures
            holds_offset(self@.runs, off as int, r.0 as int),
            r.1 == chars(self@.runs.take(r.0 as int), true).len(),
            r.1 <= off <= r.1 + shown_chars(self@.runs[r.0 as int], true).len(),
    {
        let ghost runs = self.runs@;
        let mut i: usize = 0;
        let mut pos: u64 = 0;
        proof {
            assert(runs.take(0) =~= Seq::<InsertionRun>::empty());
        }
        if off > 0 {
            loop
                invariant
                    runs == self.runs@,
                    self@.wf(),
                    0 <= i < self.runs.len(),
                    pos == chars(runs.take(i as int), true).len(),
                    pos < off,
                    off <= self@.vis().len(),
                ensures
                    0 <= i < runs.len(),
                    pos == chars(runs.take(i as int), true).len(),
                    pos < off <= chars(runs.take(i + 1), true).len(),
                decreases runs.len() - i,
            {
                proof {
                    lemma_chars_take_next(runs, i as int, true);
                    lemma_chars_take(runs, i + 1, true);
                    assert(run_ok(runs[i as int]));
                }
                let n = visible_len(&self.runs[i]);
                if off <= pos + n {
                    break;
                }
                pos = pos + n;
                i = i + 1;
                proof {
                    if i == runs.len() {
                        assert(runs.take(i as int) =~= runs);
                    }
                }
            }
        }
        proof {
            lemma_chars_take_next(runs, i as int, true);
        }
        (i, pos)
    }

    /// What an insertion at the visible offset `offset` would do.
    pub fn next_insertion_step(&self, offset: usize) -> (step: InsertStep)
        requires
            offset <= self@.vis().len(),
        ensures
            step == self@.step_at(offset as int),
    {
        proof {
            use_type_invariant(self);
        }
        let (i, pos) = self.locate(offset as u64);
        proof {
            lemma_run_holding(self@.runs, offset as int, i as int);
            assert(run_ok(self@.runs[i as int]));
        }
        insertion_step(offset as u64 - pos, &self.runs[i], self.id, self.character_ts, self.lamport_clock)
    }

    /// Records the insertion of `len` characters at the visible offset
    /// `offset` and returns the edit to send to the other replicas. The new
    /// characters get the next `len` character timestamps of this replica.
    /// The run that holds the offset decides the rest (see
    /// [`spec_insertion_step`]): the run is extended, the new characters go
    /// first, or the run is split around them.
    #[verifier::spinoff_prover]
    #[verifier::rlimit(40)]
    pub fn inserted(&mut self, offset: usize, len: usize) -> (e: CrdtEdit)
        requires
            len > 0 ==> {
                &&& offset <= old(self)@.vis().len()
                &&& old(self)@.vis().len() + len <= u64::MAX
                &&& old(self)@.character_ts + len <= u64::MAX
                &&& step_clock(old(self)@.step_at(offset as int), old(self)@.lamport_clock) <= u64::MAX
            },
        ensures
            final(self)@ == old(self)@.after_insert(offset as int, len as u64),
            e == old(self)@.insert_edit(offset as int, len as u64),
            final(self)@.wf(),
            final(self)@.id == old(self)@.id,
            final(self)@.pending == old(self)@.pending,
            final(self)@.lamport_clock == old(self)@.lamport_clock || final(self)@.lamport_clock
                == old(self)@.lamport_clock + 1,
            old(self)@.own_chars_before_clock() ==> final(self)@.own_chars_before_clock(),
            old(self)@.own_chars_before_clock() && old(self)@.all().no_duplicates()
                ==> final(self)@.all().no_duplicates(),
            len > 0 ==> e is Insertion && e->replica_id == old(self)@.id && e->len == len,
            len > 0 && offset > 0 ==> e->anchor == (Anchor {
                replica_id: old(self)@.vis()[offset - 1].0,
                offset: (old(self)@.vis()[offset - 1].1 + 1) as u64,
            }),
            len > 0 ==> {
                let new = new_chars(old(self)@.id, old(self)@.character_ts, len as u64);
                let q = old(self)@.insert_position(offset as int);
                &&& final(self)@.character_ts == old(self)@.character_ts + len
                &&& final(self)@.vis() == old(self)@.vis().take(offset as int) + new + old(self)@.vis().skip(
                    offset as int,
                )
                &&& final(self)@.all() == old(self)@.all().take(q) + new + old(self)@.all().skip(q)
                &&& final(self)@.all().len() == old(self)@.all().len() + len
                &&& final(self)@.vis().len() == old(self)@.vis().len() + len
            },
    {
        proof {
            use_type_invariant(&*self);
        }
        if len == 0 {
            return CrdtEdit::no_op();
        }
        let len = len as u64;
        let off = offset as u64;
        let ghost old_view = self@;
        let ghost runs = self.runs@;
        let (i, pos) = self.locate(off);
        let run = self.runs[i];
        proof {
            assert(run_ok(run));
            lemma_run_holding(runs, offset as int, i as int);
        }
        let k = off - pos;
        let id = self.id;
        let ct = self.character_ts;
        let clock = self.lamport_clock;
        let step = insertion_step(k, &run, id, ct, clock);
        let edit;
        let new_clock;
        let mut pieces: Vec<InsertionRun> = Vec::new();
        match step {
            InsertStep::Extend { anchor, lamport_ts } => {
                pieces.push(InsertionRun { end: run.end + len, ..run });
                edit = CrdtEdit::insertion(anchor, id, len, lamport_ts);
                new_clock = clock;
            },
            InsertStep::AtStart { lamport_ts } => {
                let origin = Anchor::origin();
                pieces.push(
                    InsertionRun { anchor: origin, replica_id: id, start: ct, end: ct + len, lamport_ts, visible: true },
                );
                pieces.push(run);
                edit = CrdtEdit::insertion(origin, id, len, lamport_ts);
                new_clock = clock + 1;
            },
            InsertStep::Split { anchor, lamport_ts } => {
                pieces.push(InsertionRun { end: run.start + k, ..run });
                pieces.push(InsertionRun { anchor, replica_id: id, start: ct, end: ct + len, lamport_ts, visible: true });
                if k < run.end - run.start {
                    pieces.push(InsertionRun { start: run.start + k, ..run });
                }
                edit = CrdtEdit::insertion(anchor, id, len, lamport_ts);
                new_clock = clock + 1;
            },
        }
        proof {
            assert(pieces@ =~= old_view.insert_pieces(offset as int, len));
            lemma_after_insert(old_view, offset as int, len);
            lemma_insert_edit(old_view, offset as int, len);
        }
        let new_runs = splice_runs(&self.runs, i, pieces);
        self.runs = new_runs;
        self.lamport_clock = new_clock;
        self.character_ts = ct + len;
        proof {
            assert(self@ == old_view.after_insert(offset as int, len));
        }
        edit
    }

    /// Records the deletion of the visible characters in the range with
    /// bounds `start_bound` and `end_bound` (an open end stands for the end
    /// of the text). The deleted characters stay in the replica, marked
    /// deleted; no timestamp is issued, and the edit returned asks nothing
    /// of the other replicas.
    pub fn deleted(&mut self, start_bound: Bound, end_bound: Bound) -> (e: CrdtEdit)
        requires
            start_bound != Bound::Excluded(usize::MAX),
            end_bound != Bound::Included(usize::MAX),
            ({
                let s = start_offset(start_bound, 0);
                let e = end_offset(end_bound, old(self)@.vis().len() as usize);
                s != e ==> s <= e <= old(self)@.vis().len()
            }),
        ensures
            e == CrdtEdit::NoOp,
            final(self)@ == old(self)@.after_delete(
                start_offset(start_bound, 0),
                end_offset(end_bound, old(self)@.vis().len() as usize),
            ),
            final(self)@.wf(),
            final(self)@.id == old(self)@.id,
            final(self)@.character_ts == old(self)@.character_ts,
            final(self)@.lamport_clock == old(self)@.lamport_clock,
            final(self)@.pending == old(self)@.pending,
            final(self)@.all() == old(self)@.all(),
            old(self)@.own_chars_before_clock() ==> final(self)@.own_chars_before_clock(),
            ({
                let s = start_offset(start_bound, 0);
                let e = end_offset(end_bound, old(self)@.vis().len() as usize);
                s != e ==> {
                    &&& final(self)@.vis() == old(self)@.vis().take(s) + old(self)@.vis().skip(e)
                    &&& final(self)@.vis().len() == old(self)@.vis().len() - (e - s)
                }
            }),
    {
        proof {
            use_type_invariant(&*self);
        }
        let hi = self.len();
        let (start, end) = range_bounds_to_start_end(start_bound, end_bound, 0, hi);
        if start == end {
            return CrdtEdit::no_op();
        }
        let s = start as u64;
        let e = end as u64;
        let ghost runs = self.runs@;
        let mut new_runs: Vec<InsertionRun> = Vec::new();
        let mut i: usize = 0;
        let mut pos: u64 = 0;
        proof {
            assert(runs.take(0) =~= Seq::<InsertionRun>::empty());
        }
        while i < self.runs.len()
            invariant
                runs == self.runs@,
                self@.wf(),
                0 <= i <= self.runs.len(),
                s < e,
                pos == chars(runs.take(i as int), true).len(),
                new_runs@ == delete_runs(runs.take(i as int), s as int, e as int),
            decreases self.runs.len() - i,
        {
            proof {
                lemma_chars_take_next(runs, i as int, true);
                lemma_chars_take(runs, i + 1, true);
                assert(run_ok(runs[i as int]));
                assert(runs.take(i + 1).drop_last() =~= runs.take(i as int));
                assert(runs.take(i + 1).last() == runs[i as int]);
            }
            let run = self.runs[i];
            let n = visible_len(&run);
            push_deleted(&mut new_runs, run, pos, s, e);
            pos = pos + n;
            i = i + 1;
        }
        proof {
            assert(runs.take(i as int) =~= runs);
            lemma_after_delete(self@, s as int, e as int);
        }
        let ghost old_view = self@;
        self.runs = new_runs;
        proof {
            assert(self@ == old_view.after_delete(s as int, e as int));
        }
        CrdtEdit::no_op()
    }

    /// A new replica `id` of the same text, as cloning a replica makes it:
    /// the same runs and pending edits, its own character timestamps
    /// starting at 0, and the Lamport clock one tick ahead.
    pub fn fork(&self, id: ReplicaId) -> (c: Self)
        requires
            id@ != 0,
            self@.lamport_clock < u64::MAX,
        ensures
            c@.wf(),
            c@.id == id,
            c@.runs == self@.runs,
            c@.character_ts == 0,
            c@.lamport_clock == self@.lamport_clock + 1,
            c@.pending == self@.pending,
            (forall|j: int| 0 <= j < self@.all().len() ==> (#[trigger] self@.all()[j]).0 != id)
                ==> c@.own_chars_before_clock(),
    {
        proof {
            use_type_invariant(self);
        }
        let mut lamport_clock = self.lamport_clock;
        lamport_clock = lamport_clock + 1;
        let mut runs: Vec<InsertionRun> = Vec::new();
        let mut i: usize = 0;
        while i < self.runs.len()
            invariant
                0 <= i <= self.runs.len(),
                runs@ == self.runs@.take(i as int),
            decreases self.runs.len() - i,
        {
            runs.push(self.runs[i]);
            i = i + 1;
            proof {
                assert(runs@ =~= self.runs@.take(i as int));
            }
        }
        proof {
            assert(self.runs@.take(i as int) =~= self.runs@);
        }
        let pending = self.pending.clone();
        proof {
            assert(pending@ =~= self.pending@);
        }
        let c = Replica { id, runs, character_ts: 0, lamport_clock, pending };
        proof {
            assert(c@.all() == self@.all());
            if forall|j: int| 0 <= j < self@.all().len() ==> (#[trigger] self@.all()[j]).0 != id {
                assert forall|j: int|
                    0 <= j < c@.all().len() && (#[trigger] c@.all()[j]).0 == c@.id implies c@.all()[j].1
                    < c@.character_ts by {
                    assert(self@.all()[j].0 != id);
                }
            }
        }
        c
    }
}

} // verus!
