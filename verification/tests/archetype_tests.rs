use nexus_ecs::archetype::{Archetype, Column};
use nexus_ecs::entity::EntityId;

const HP: u64 = 7;

fn hp(v: u32) -> Vec<u8> {
    v.to_le_bytes().to_vec()
}

#[test]
fn column_write_read() {
    let mut col = Column::new(4);
    col.write_raw(0, &hp(100));
    assert_eq!(col.row_bytes(0), hp(100));
}

#[test]
fn column_swap_remove_preserves_others() {
    let mut col = Column::new(4);
    for i in 0u32..5 {
        col.write_raw(i as usize, &i.to_le_bytes());
    }
    col.swap_remove_row(1); // removes index 1, moves 4 there
    assert_eq!(col.len(), 4);
    assert_eq!(col.row_bytes(0), hp(0));
    assert_eq!(col.row_bytes(1), hp(4));
    assert_eq!(col.row_bytes(2), hp(2));
    assert_eq!(col.row_bytes(3), hp(3));
}

#[test]
fn archetype_push_and_read() {
    let mut arch = Archetype::new(vec![HP]);
    let dummy_id = EntityId::new(0, 0);
    arch.push_entity(dummy_id);
    arch.write_raw_bytes(HP, 0, &hp(42));
    assert_eq!(arch.read_component(0, HP), Some(hp(42)));
}

#[test]
fn archetype_swap_remove_returns_moved_entity() {
    let mut arch = Archetype::new(vec![]);
    let e0 = EntityId::new(0, 0);
    let e1 = EntityId::new(1, 0);
    let e2 = EntityId::new(2, 0);
    arch.push_entity(e0);
    arch.push_entity(e1);
    arch.push_entity(e2);
    let moved = arch.swap_remove(0); // removes e0, moves e2 to row 0
    assert_eq!(moved, Some(e2));
    assert_eq!(arch.entity_count(), 2);
    assert_eq!(arch.entities()[0], e2);
    assert_eq!(arch.entities()[1], e1);
}

#[test]
fn column_write_pads_missing_rows_with_zeros() {
    let mut col = Column::new(2);
    col.write_raw(3, &[9, 8]);
    assert_eq!(col.len(), 4);
    assert_eq!(col.row_bytes(0), vec![0, 0]);
    assert_eq!(col.row_bytes(2), vec![0, 0]);
    assert_eq!(col.row_bytes(3), vec![9, 8]);
    // overwrite in place keeps the length
    col.write_raw(1, &[5, 6]);
    assert_eq!(col.len(), 4);
    assert_eq!(col.row_bytes(1), vec![5, 6]);
    assert_eq!(col.row_bytes(3), vec![9, 8]);
}

#[test]
fn column_push_zeroed_appends_zero_row() {
    let mut col = Column::new(3);
    col.write_raw(0, &[1, 2, 3]);
    col.push_zeroed();
    assert_eq!(col.len(), 2);
    assert_eq!(col.row_bytes(1), vec![0, 0, 0]);
    assert_eq!(col.row_bytes(0), vec![1, 2, 3]);
}

#[test]
fn column_zero_sized_holds_no_rows() {
    let mut col = Column::new(0);
    col.push_zeroed();
    col.write_raw(5, &[]);
    assert_eq!(col.len(), 0);
    assert_eq!(col.row_bytes(5), Vec::<u8>::new());
    assert_eq!(col.swap_remove_row(0), None);
}

#[test]
fn column_swap_remove_edge_cases() {
    let mut col = Column::new(1);
    assert_eq!(col.swap_remove_row(0), None);
    col.write_raw(0, &[1]);
    col.write_raw(1, &[2]);
    // removing the last row just drops it
    assert_eq!(col.swap_remove_row(1), Some(()));
    assert_eq!(col.len(), 1);
    assert_eq!(col.row_bytes(0), vec![1]);
    // removing the only value leaves the column empty
    assert_eq!(col.swap_remove_row(0), None);
    assert_eq!(col.len(), 0);
}

#[test]
fn column_swap_remove_reports_values_left() {
    let mut col = Column::new(4);
    col.write_raw(0, &hp(7));
    assert_eq!(col.len(), 1);
    assert_eq!(col.swap_remove_row(0), None);
    assert_eq!(col.len(), 0);
    col.write_raw(0, &hp(1));
    col.write_raw(1, &hp(2));
    col.write_raw(2, &hp(3));
    assert_eq!(col.swap_remove_row(0), Some(()));
    assert_eq!(col.row_bytes(0), hp(3));
}

#[test]
fn archetype_new_column_at_any_row_is_zero_elsewhere() {
    let mut arch = Archetype::new(vec![HP]);
    for i in 0..3u32 {
        arch.push_entity(EntityId::new(i, 0));
    }
    arch.write_raw_bytes(HP, 1, &hp(9));
    assert_eq!(arch.read_component(0, HP), Some(hp(0)));
    assert_eq!(arch.read_component(1, HP), Some(hp(9)));
    assert_eq!(arch.read_component(2, HP), Some(hp(0)));
    assert_eq!(arch.column(HP).map(|c| c.len()), Some(3));
}

#[test]
fn archetype_swap_remove_last_and_empty() {
    let mut arch = Archetype::empty();
    assert_eq!(arch.swap_remove(0), None);
    let e0 = EntityId::new(0, 0);
    let e1 = EntityId::new(1, 0);
    arch.push_entity(e0);
    arch.push_entity(e1);
    assert_eq!(arch.swap_remove(1), None);
    assert_eq!(arch.entities(), &[e0]);
    assert_eq!(arch.swap_remove(0), None);
    assert_eq!(arch.entity_count(), 0);
}

#[test]
fn archetype_swap_remove_moves_column_values() {
    let mut arch = Archetype::new(vec![HP]);
    let ids = [EntityId::new(0, 0), EntityId::new(1, 0), EntityId::new(2, 0)];
    for (row, e) in ids.iter().enumerate() {
        arch.push_entity(*e);
        arch.write_raw_bytes(HP, row, &hp(10 * row as u32));
    }
    assert_eq!(arch.swap_remove(0), Some(ids[2]));
    assert_eq!(arch.read_component(0, HP), Some(hp(20)));
    assert_eq!(arch.read_component(1, HP), Some(hp(10)));
}

#[test]
fn archetype_push_entity_zero_fills_columns() {
    let mut arch = Archetype::new(vec![HP]);
    arch.push_entity(EntityId::new(0, 0));
    arch.write_raw_bytes(HP, 0, &hp(5));
    arch.push_entity(EntityId::new(1, 0));
    assert_eq!(arch.read_component(1, HP), Some(hp(0)));
    assert_eq!(arch.read_component(0, HP), Some(hp(5)));
}

#[test]
fn archetype_id_and_missing_column() {
    let arch = Archetype::new(vec![1, 4]);
    assert_eq!(arch.id(), &vec![1u64, 4]);
    assert!(arch.column(1).is_none());
    let mut arch = arch;
    arch.push_entity(EntityId::new(3, 1));
    assert_eq!(arch.read_component(0, 4), None);
    arch.write_raw_bytes(4, 0, &[1, 2]);
    let col = arch.column(4).expect("column created by the first write");
    assert_eq!(col.len(), 1);
    assert_eq!(col.row_bytes(0), vec![1, 2]);
}

#[test]
fn column_row_count_follows_calls() {
    let mut col = Column::new(2);
    col.push_zeroed(); // 1
    col.write_raw(4, &[1, 1]); // max(1, 5) = 5
    assert_eq!(col.len(), 5);
    col.write_raw(2, &[2, 2]); // stays 5
    assert_eq!(col.len(), 5);
    col.swap_remove_row(0); // 4
    col.push_zeroed(); // 5
    assert_eq!(col.len(), 5);
    for r in 0..5 {
        assert_eq!(col.row_bytes(r).len(), 2);
    }
}
