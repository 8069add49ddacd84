//! Last-writer-wins registers and conflict resolution.

use tpt_av_sync::{resolve_tag_conflict, ClipId, LwwReg, OpTag, PeerId};

fn tag(l: u64, p: u64) -> OpTag {
    OpTag::new(l, PeerId::from_u64(p))
}

#[test]
fn higher_lamport_wins() {
    let mut reg = LwwReg::new_initial(10_u64);
    assert!(reg.set(20, tag(5, 1)));
    assert_eq!(reg.get(), &20);
    assert!(!reg.set(30, tag(3, 1)), "stale write must lose");
    assert_eq!(reg.get(), &20);
}

#[test]
fn equal_lamport_higher_peer_wins() {
    let mut reg = LwwReg::new_initial(1_u64);
    assert!(reg.set(2, tag(7, 2)));
    assert!(reg.set(3, tag(7, 5)), "higher peer id breaks the tie");
    assert_eq!(reg.get(), &3);
    assert!(!reg.set(4, tag(7, 2)), "lower peer id loses the tie");
}

#[test]
fn equal_tag_write_is_rejected() {
    let mut reg = LwwReg::new(1_u64, tag(4, 9));
    assert!(!reg.set(2, tag(4, 9)), "exact duplicate write is a no-op");
    assert_eq!(reg.get(), &1);
}

#[test]
fn resolution_is_commutative() {
    let mut a = LwwReg::new_initial("x".to_string());
    let mut b = a.clone();
    a.set("from-a".to_string(), tag(9, 1));
    b.set("from-b".to_string(), tag(9, 2));
    a.set("from-b".to_string(), tag(9, 2));
    b.set("from-a".to_string(), tag(9, 1));
    assert_eq!(a, b, "both orders must converge");
    assert_eq!(a.get(), "from-b");
}

#[test]
fn initial_tag_is_beaten_by_any_real_tag() {
    let mut reg = LwwReg::new_initial(0_u64);
    assert!(reg.set(1, OpTag::new(1, PeerId::from_u64(1))));
}

#[test]
fn resolve_tag_conflict_reports_the_actual_winner() {
    let clip = ClipId::from_u64(1);
    let winner = resolve_tag_conflict("move", clip, tag(3, 1), tag(5, 2));
    assert!(winner.op_won, "higher lamport must win");
    let loser = resolve_tag_conflict("move", clip, tag(9, 1), tag(5, 2));
    assert!(!loser.op_won, "lower lamport must lose");
}

/// Applies one `(value, tag)` write to the register.
fn apply_write(mut register: LwwReg<String>, write: (String, OpTag)) -> LwwReg<String> {
    let (value, tag) = write;
    register.set(value, tag);
    register
}

fn assert_commutative(start: LwwReg<String>, a: (String, OpTag), b: (String, OpTag)) {
    let ab = apply_write(apply_write(start.clone(), a.clone()), b.clone());
    let ba = apply_write(apply_write(start, b), a);
    assert_eq!(ab, ba, "both application orders must agree");
}

fn assert_idempotent(start: LwwReg<String>, w: (String, OpTag)) {
    let once = apply_write(start, w.clone());
    let twice = apply_write(once.clone(), w);
    assert_eq!(once, twice, "applying a write twice must change nothing");
}

#[test]
fn lww_register_writes_are_commutative() {
    let write_a = ("from peer 1".to_string(), OpTag::new(7, PeerId::from_u64(1)));
    let write_b = ("from peer 2".to_string(), OpTag::new(9, PeerId::from_u64(2)));
    assert_commutative(LwwReg::new_initial("initial".into()), write_a, write_b);
}

#[test]
fn lww_register_writes_are_idempotent() {
    let write = ("same edit twice".to_string(), OpTag::new(4, PeerId::from_u64(3)));
    assert_idempotent(LwwReg::new_initial("initial".into()), write);
}

#[test]
fn tied_tags_converge_regardless_of_arrival_order() {
    let first = ("peer one wins ties".to_string(), OpTag::new(5, PeerId::from_u64(1)));
    let second = ("peer two wins ties".to_string(), OpTag::new(5, PeerId::from_u64(2)));
    assert_commutative(LwwReg::new_initial("initial".into()), first, second);
}

#[test]
fn tag_order_is_lamport_then_peer() {
    let a = tag(3, 9);
    let b = tag(4, 1);
    assert!(b.is_above(a));
    assert!(!a.is_above(b));
    assert!(tag(4, 2).is_above(b));
    assert!(!b.is_above(b));
}

#[test]
fn resolution_event_names_kind_clip_and_reason() {
    let clip = ClipId::from_u64(42);
    let e = resolve_tag_conflict("delete", clip, tag(2, 1), tag(2, 3));
    assert_eq!(e.kind, "delete");
    assert_eq!(e.clip_id, clip);
    assert_eq!(e.op, tag(2, 3));
    assert!(e.op_won);
    assert_eq!(e.reason, "higher (lamport, peer) tag wins");
}
