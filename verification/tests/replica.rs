use cola::replica::{range_bounds_to_start_end, Bound, InsertStep, Replica, ReplicaId};
use cola::{Anchor, CrdtEdit};

fn random_id(seed: u128) -> ReplicaId {
    ReplicaId::from_random_bits(seed.wrapping_mul(0x9e37_79b9_7f4a_7c15_f39c_c060_5ced_c835).wrapping_add(seed))
}

#[test]
fn zero_id_has_zero_first_field() {
    assert_eq!(ReplicaId::zero().as_u32(), 0);
}

#[test]
fn zero_ids_are_equal() {
    assert!(ReplicaId::zero() == ReplicaId::zero());
}

#[test]
fn random_id_is_never_zero() {
    assert!(ReplicaId::from_random_bits(0) != ReplicaId::zero());
    for k in 0..100u128 {
        assert!(random_id(k) != ReplicaId::zero());
    }
}

#[test]
fn random_id_sets_version_and_variant_bits() {
    // All bits zero: only the version nibble 4 and the variant bit 1 are set.
    let id = ReplicaId::from_random_bits(0);
    assert_eq!(id.as_u32(), 0);
    assert!(id == ReplicaId::from_random_bits(0x0000_0000_0000_4000_8000_0000_0000_0000));
    // All bits one: the version nibble becomes 4 and the variant bits 10.
    let ones = ReplicaId::from_random_bits(u128::MAX);
    assert!(ones == ReplicaId::from_random_bits(0xFFFF_FFFF_FFFF_4FFF_BFFF_FFFF_FFFF_FFFF));
    assert!(ones != ReplicaId::from_random_bits(u128::MAX - 1));
    assert_eq!(ones.as_u32(), 0xFFFF_FFFF);
}

#[test]
fn first_field_is_top_32_bits() {
    let id = ReplicaId::from_random_bits(0xa1a2_a3a4_b1b2_c1c2_d1d2_d3d4_d5d6_d7d8);
    assert_eq!(id.as_u32(), 0xa1a2_a3a4);
}

#[test]
fn different_random_bits_give_different_ids() {
    assert!(random_id(1) != random_id(2));
}

#[test]
fn zero_is_the_least_id() {
    for k in 0..100u128 {
        assert!(ReplicaId::zero() < random_id(k));
    }
}

#[test]
fn ids_order_by_their_first_field() {
    let a = ReplicaId::from_random_bits(0x0000_0001 << 96);
    let b = ReplicaId::from_random_bits(0x0000_0002 << 96);
    assert!(a < b);
}

#[test]
fn copied_id_is_equal() {
    let a = random_id(7);
    let b = a;
    assert!(a == b);
    assert_eq!(a.as_u32(), b.as_u32());
}

#[test]
fn included_start_excluded_end() {
    assert_eq!(range_bounds_to_start_end(Bound::Included(2), Bound::Excluded(5), 0, 10), (2, 5));
}

#[test]
fn excluded_start_included_end() {
    assert_eq!(range_bounds_to_start_end(Bound::Excluded(2), Bound::Included(5), 0, 10), (3, 6));
}

#[test]
fn unbounded_sides_take_lo_and_hi() {
    assert_eq!(range_bounds_to_start_end(Bound::Unbounded, Bound::Unbounded, 4, 9), (4, 9));
    assert_eq!(range_bounds_to_start_end(Bound::Unbounded, Bound::Excluded(3), 0, 9), (0, 3));
    assert_eq!(range_bounds_to_start_end(Bound::Included(7), Bound::Unbounded, 0, 9), (7, 9));
}

#[test]
fn empty_range() {
    assert_eq!(range_bounds_to_start_end(Bound::Included(4), Bound::Excluded(4), 0, 9), (4, 4));
}

#[test]
fn extreme_offsets() {
    assert_eq!(
        range_bounds_to_start_end(Bound::Included(usize::MAX), Bound::Excluded(usize::MAX), 0, 0),
        (usize::MAX, usize::MAX)
    );
    assert_eq!(range_bounds_to_start_end(Bound::Excluded(0), Bound::Included(0), 0, 0), (1, 1));
}

fn all_edits_are_no_ops(edits: &[CrdtEdit]) -> bool {
    edits.iter().all(|e| *e == CrdtEdit::no_op())
}

#[test]
fn new_replica_holds_the_text_length() {
    let r = Replica::new(random_id(1), 11);
    assert_eq!(r.len(), 11);
    assert_eq!(r.summary(), 11);
    assert_eq!(r.character_ts(), 11);
    assert_eq!(r.lamport_clock(), 1);
    assert!(r.id() == random_id(1));
    let empty = Replica::new(random_id(1), 0);
    assert_eq!(empty.len(), 0);
}

#[test]
fn inserting_nothing_is_a_no_op() {
    let mut r = Replica::new(random_id(1), 3);
    assert!(r.inserted(1, 0) == CrdtEdit::no_op());
    assert_eq!(r.len(), 3);
    assert_eq!(r.character_ts(), 3);
    assert_eq!(r.lamport_clock(), 1);
}

#[test]
fn inserting_in_the_middle_splits_the_run() {
    let id = random_id(1);
    let mut r = Replica::new(id, 3);
    let e = r.inserted(1, 2);
    assert!(e == CrdtEdit::insertion(Anchor::new(id, 1), id, 2, 1));
    assert_eq!(r.len(), 5);
    assert_eq!(r.character_ts(), 5);
    assert_eq!(r.lamport_clock(), 2);
}

#[test]
fn inserting_at_the_end_of_own_last_run_extends_it() {
    let id = random_id(1);
    let mut r = Replica::new(id, 3);
    let e = r.inserted(3, 4);
    // The run is ours and ends at the next character timestamp.
    assert!(e == CrdtEdit::insertion(Anchor::new(id, 3), id, 4, 0));
    assert_eq!(r.lamport_clock(), 1);
    assert_eq!(r.len(), 7);
    // Typing on extends again.
    let e = r.inserted(7, 1);
    assert!(e == CrdtEdit::insertion(Anchor::new(id, 7), id, 1, 0));
    assert_eq!(r.character_ts(), 8);
}

#[test]
fn inserting_into_an_empty_text_extends_the_empty_run() {
    let id = random_id(2);
    let mut r = Replica::new(id, 0);
    let e = r.inserted(0, 5);
    assert!(e == CrdtEdit::insertion(Anchor::new(id, 0), id, 5, 0));
    assert_eq!(r.len(), 5);
    assert_eq!(r.lamport_clock(), 1);
}

#[test]
fn inserting_at_the_start_anchors_at_the_origin() {
    let id = random_id(3);
    let mut r = Replica::new(id, 4);
    let e = r.inserted(0, 2);
    assert!(e == CrdtEdit::insertion(Anchor::origin(), id, 2, 1));
    assert_eq!(r.len(), 6);
    assert_eq!(r.lamport_clock(), 2);
    assert_eq!(r.character_ts(), 6);
}

#[test]
fn inserting_after_a_foreign_run_end_does_not_extend() {
    let id = random_id(4);
    let mut r = Replica::new(id, 4);
    // A new run in the middle, then typing at the end of the original run's
    // first half: that half is ours but does not end at the next timestamp.
    r.inserted(2, 1);
    let e = r.inserted(2, 1);
    assert!(e == CrdtEdit::insertion(Anchor::new(id, 2), id, 1, 2));
    assert_eq!(r.lamport_clock(), 3);
}

#[test]
fn deleting_removes_visible_characters_only() {
    let id = random_id(5);
    let mut r = Replica::new(id, 10);
    let e = r.deleted(Bound::Included(2), Bound::Excluded(5));
    assert!(e == CrdtEdit::no_op());
    assert_eq!(r.len(), 7);
    assert_eq!(r.character_ts(), 10);
    assert_eq!(r.lamport_clock(), 1);
    let e = r.deleted(Bound::Unbounded, Bound::Included(0));
    assert!(e == CrdtEdit::no_op());
    assert_eq!(r.len(), 6);
    let e = r.deleted(Bound::Excluded(3), Bound::Unbounded);
    assert!(e == CrdtEdit::no_op());
    assert_eq!(r.len(), 4);
}

#[test]
fn deleting_an_empty_range_changes_nothing() {
    let mut r = Replica::new(random_id(6), 5);
    assert!(r.deleted(Bound::Included(3), Bound::Excluded(3)) == CrdtEdit::no_op());
    assert_eq!(r.len(), 5);
}

#[test]
fn deleting_everything_then_inserting() {
    let id = random_id(7);
    let mut r = Replica::new(id, 5);
    r.deleted(Bound::Unbounded, Bound::Unbounded);
    assert_eq!(r.len(), 0);
    // The only run is deleted: the insertion goes first, at the origin.
    let e = r.inserted(0, 3);
    assert!(e == CrdtEdit::insertion(Anchor::origin(), id, 3, 1));
    assert_eq!(r.len(), 3);
}

#[test]
fn deleting_across_runs() {
    let id = random_id(8);
    let mut r = Replica::new(id, 6);
    r.inserted(3, 0);
    r.inserted(2, 4);
    assert_eq!(r.len(), 10);
    r.deleted(Bound::Included(1), Bound::Excluded(8));
    assert_eq!(r.len(), 3);
    let e = r.inserted(1, 1);
    // The character before offset 1 is the first one, (id, 0).
    assert!(e == CrdtEdit::insertion(Anchor::new(id, 1), id, 1, 2));
}

#[test]
fn fork_keeps_the_text_and_advances_the_clock() {
    let mut r = Replica::new(random_id(9), 4);
    r.inserted(2, 3);
    let other = random_id(10);
    let c = r.fork(other);
    assert!(c.id() == other);
    assert_eq!(c.len(), r.len());
    assert_eq!(c.character_ts(), 0);
    assert_eq!(c.lamport_clock(), r.lamport_clock() + 1);
}

#[test]
fn replica_mirrors_a_buffer() {
    let mut buffer = String::from("hello world");
    let mut r = Replica::new(random_id(11), buffer.len() as u64);
    let mut edits = Vec::new();
    let steps: [(bool, usize, &str, usize); 6] = [
        (true, 5, ",", 0),
        (true, 12, "!", 0),
        (false, 0, "", 6),
        (true, 0, "Hey", 0),
        (false, 3, "", 5),
        (true, 3, " there", 0),
    ];
    for (insert, offset, text, del_len) in steps {
        if insert {
            buffer.insert_str(offset, text);
            r.inserted(offset, text.len());
        } else {
            buffer.replace_range(offset..offset + del_len, "");
            edits.push(r.deleted(Bound::Included(offset), Bound::Excluded(offset + del_len)));
        }
        assert_eq!(r.len(), buffer.len());
    }
    assert!(all_edits_are_no_ops(&edits));
}

#[test]
fn inserting_right_after_an_insertion_extends_it() {
    let id = random_id(12);
    let mut r = Replica::new(id, 3);
    let e1 = r.inserted(1, 2);
    assert!(e1 == CrdtEdit::insertion(Anchor::new(id, 1), id, 2, 1));
    let e2 = r.inserted(3, 1);
    assert!(e2 == CrdtEdit::insertion(Anchor::new(id, 5), id, 1, 1));
    assert_eq!(r.lamport_clock(), 2);
    assert_eq!(r.len(), 6);
}

#[test]
fn two_insertions_leave_what_one_leaves() {
    let id = random_id(13);
    let mut two = Replica::new(id, 4);
    two.inserted(2, 3);
    two.inserted(5, 2);
    let mut one = Replica::new(id, 4);
    one.inserted(2, 5);
    assert_eq!(two.len(), one.len());
    assert_eq!(two.character_ts(), one.character_ts());
    assert_eq!(two.lamport_clock(), one.lamport_clock());
    // The next edits agree too.
    assert!(two.inserted(7, 1) == one.inserted(7, 1));
    assert!(two.inserted(0, 1) == one.inserted(0, 1));
}

#[test]
fn deleting_what_was_inserted_restores_the_length() {
    let mut r = Replica::new(random_id(14), 6);
    r.inserted(3, 4);
    r.deleted(Bound::Included(3), Bound::Excluded(7));
    assert_eq!(r.len(), 6);
    assert_eq!(r.character_ts(), 10);
}

#[test]
fn inserting_nothing_anywhere_is_a_no_op() {
    let mut r = Replica::new(random_id(15), 2);
    assert!(r.inserted(100, 0) == CrdtEdit::no_op());
    assert_eq!(r.len(), 2);
}

#[test]
fn deleting_an_empty_range_past_the_end_is_a_no_op() {
    let mut r = Replica::new(random_id(16), 2);
    assert!(r.deleted(Bound::Included(50), Bound::Excluded(50)) == CrdtEdit::no_op());
    assert_eq!(r.len(), 2);
}

#[test]
fn next_insertion_step_tells_extension_from_split() {
    let id = random_id(17);
    let r = Replica::new(id, 3);
    assert!(matches!(r.next_insertion_step(3), InsertStep::Extend { .. }));
    assert!(matches!(r.next_insertion_step(1), InsertStep::Split { .. }));
    assert!(matches!(r.next_insertion_step(0), InsertStep::AtStart { .. }));
}

#[test]
fn id_bits_round_trip() {
    let id = ReplicaId::from_random_bits(0);
    assert_eq!(id.as_u128(), 0x0000_0000_0000_4000_8000_0000_0000_0000);
    assert_eq!(ReplicaId::zero().as_u128(), 0);
}
