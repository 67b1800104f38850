//! Tests for the slot store: the per-cell lifecycle, the fan-out
//! operations, and every error condition.

use tiles::store::{Tiles, TilesError};

/// A component payload mixing several caller-chosen shapes, each declared
/// in the store under its own key.
#[derive(Debug, PartialEq, Clone)]
enum Comp {
    Number(f64),
    Text(String),
    Count(i32),
}

const NUMBER_KEY: u64 = 0;
const TEXT_KEY: u64 = 1;
const COUNT_KEY: u64 = 2;

fn three_type_store(size: usize) -> Tiles<Comp> {
    let keys = vec![NUMBER_KEY, TEXT_KEY, COUNT_KEY];
    Tiles::with_types(size, &keys).unwrap()
}

#[test]
fn lib_insert_component_and_get() {
    let item = "Hello";
    let mut tile_map = three_type_store(100);
    tile_map.insert(TEXT_KEY, 11, Comp::Text(String::from(item))).unwrap();
    let value = tile_map.get(TEXT_KEY, 11).unwrap().unwrap();
    assert_eq!(value, &Comp::Text(String::from(item)));
}

#[test]
fn lib_check_has_after_insert_and_remove() {
    let i = 7;
    let c = 10;
    let mut tile_map = three_type_store(97);
    assert!(!tile_map.has(COUNT_KEY, i).unwrap());
    tile_map.insert(COUNT_KEY, i, Comp::Count(c)).unwrap();
    assert!(tile_map.has(COUNT_KEY, i).unwrap());
    tile_map.remove(COUNT_KEY, i).unwrap();
    assert!(!tile_map.has(COUNT_KEY, i).unwrap());
}

#[test]
fn does_not_have_component() {
    let tile_map = three_type_store(1);
    assert!(!tile_map.has(NUMBER_KEY, 0).unwrap());
    assert!(!tile_map.has(COUNT_KEY, 0).unwrap());
    assert!(!tile_map.has(TEXT_KEY, 0).unwrap());
}

#[test]
fn second_insert_component_and_get() {
    let item = "Hello";
    let mut tile_map: Tiles<String> = Tiles::new(100);
    tile_map.register(TEXT_KEY).unwrap();
    tile_map.insert(TEXT_KEY, 11, String::from(item)).unwrap();
    let value = tile_map.get(TEXT_KEY, 11).unwrap().unwrap();
    assert_eq!(value.as_str(), item);
}

#[test]
fn second_check_has_after_insert_and_remove() {
    let i = 7;
    let c = 10;
    let mut tile_map: Tiles<i32> = Tiles::new(97);
    tile_map.register(COUNT_KEY).unwrap();
    assert!(!tile_map.has(COUNT_KEY, i).unwrap());
    tile_map.insert(COUNT_KEY, i, c).unwrap();
    assert!(tile_map.has(COUNT_KEY, i).unwrap());
    tile_map.remove(COUNT_KEY, i).unwrap();
    assert!(!tile_map.has(COUNT_KEY, i).unwrap());
}

#[test]
fn initial_absence_across_all_slots() {
    let mut store: Tiles<u32> = Tiles::new(5);
    store.register(9).unwrap();
    for slot in 0..5 {
        assert!(!store.has(9, slot).unwrap());
        assert_eq!(store.get(9, slot).unwrap(), None);
    }
}

#[test]
fn string_component_lifecycle() {
    let mut store: Tiles<String> = Tiles::new(100);
    store.register(TEXT_KEY).unwrap();
    store.insert(TEXT_KEY, 11, String::from("Hello")).unwrap();
    assert_eq!(store.get(TEXT_KEY, 11).unwrap().unwrap(), "Hello");
    assert!(store.has(TEXT_KEY, 11).unwrap());
    store.remove(TEXT_KEY, 11).unwrap();
    assert!(!store.has(TEXT_KEY, 11).unwrap());
}

#[test]
fn take_returns_value_and_vacates() {
    let mut store: Tiles<i32> = Tiles::new(4);
    store.register(3).unwrap();
    store.insert(3, 2, 55).unwrap();
    assert_eq!(store.take(3, 2).unwrap(), 55);
    assert!(!store.has(3, 2).unwrap());
    assert_eq!(store.take(3, 2), Err(TilesError::ComponentAbsent));
}

#[test]
fn insert_overwrites_prior_value() {
    let mut store: Tiles<i32> = Tiles::new(4);
    store.register(3).unwrap();
    store.insert(3, 1, 5).unwrap();
    store.insert(3, 1, 6).unwrap();
    assert_eq!(store.get(3, 1).unwrap(), Some(&6));
}

#[test]
fn remove_is_idempotent() {
    let mut store: Tiles<i32> = Tiles::new(4);
    store.register(3).unwrap();
    assert_eq!(store.remove(3, 1), Ok(()));
    assert_eq!(store.remove(3, 1), Ok(()));
    assert!(!store.has(3, 1).unwrap());
}

#[test]
fn move_slot_transfers_and_vacates() {
    let mut store = three_type_store(10);
    store.insert(TEXT_KEY, 2, Comp::Text(String::from("a"))).unwrap();
    store.insert(COUNT_KEY, 2, Comp::Count(7)).unwrap();
    store.move_slot(2, 5).unwrap();
    assert_eq!(store.get(TEXT_KEY, 5).unwrap(), Some(&Comp::Text(String::from("a"))));
    assert_eq!(store.get(COUNT_KEY, 5).unwrap(), Some(&Comp::Count(7)));
    assert!(!store.has(TEXT_KEY, 2).unwrap());
    assert!(!store.has(COUNT_KEY, 2).unwrap());
    assert!(!store.has(NUMBER_KEY, 5).unwrap());
}

#[test]
fn move_slot_overwrites_destination() {
    let mut store: Tiles<i32> = Tiles::new(10);
    store.register(1).unwrap();
    store.insert(1, 5, 111).unwrap();
    store.insert(1, 2, 222).unwrap();
    store.move_slot(2, 5).unwrap();
    assert_eq!(store.get(1, 5).unwrap(), Some(&222));
    assert!(!store.has(1, 2).unwrap());
}

#[test]
fn move_slot_onto_itself_keeps_value() {
    let mut store: Tiles<i32> = Tiles::new(10);
    store.register(1).unwrap();
    store.insert(1, 4, 9).unwrap();
    store.move_slot(4, 4).unwrap();
    assert_eq!(store.get(1, 4).unwrap(), Some(&9));
}

#[test]
fn transfer_moves_one_key_only() {
    let mut store = three_type_store(10);
    store.insert(TEXT_KEY, 2, Comp::Text(String::from("a"))).unwrap();
    store.insert(COUNT_KEY, 2, Comp::Count(7)).unwrap();
    store.transfer(TEXT_KEY, 2, 5).unwrap();
    assert_eq!(store.get(TEXT_KEY, 5).unwrap(), Some(&Comp::Text(String::from("a"))));
    assert!(!store.has(TEXT_KEY, 2).unwrap());
    assert_eq!(store.get(COUNT_KEY, 2).unwrap(), Some(&Comp::Count(7)));
    assert!(!store.has(COUNT_KEY, 5).unwrap());
}

#[test]
fn clear_deletes_whole_slot_only() {
    let mut store = three_type_store(10);
    store.insert(TEXT_KEY, 3, Comp::Text(String::from("x"))).unwrap();
    store.insert(COUNT_KEY, 3, Comp::Count(1)).unwrap();
    store.insert(COUNT_KEY, 4, Comp::Count(2)).unwrap();
    store.clear(3).unwrap();
    assert!(!store.has(TEXT_KEY, 3).unwrap());
    assert!(!store.has(COUNT_KEY, 3).unwrap());
    assert_eq!(store.get(COUNT_KEY, 4).unwrap(), Some(&Comp::Count(2)));
}

#[test]
fn clear_column_leaves_other_columns() {
    let mut store = three_type_store(10);
    store.insert(TEXT_KEY, 3, Comp::Text(String::from("x"))).unwrap();
    store.insert(TEXT_KEY, 7, Comp::Text(String::from("y"))).unwrap();
    store.insert(COUNT_KEY, 3, Comp::Count(1)).unwrap();
    store.clear_column(TEXT_KEY).unwrap();
    assert!(!store.has(TEXT_KEY, 3).unwrap());
    assert!(!store.has(TEXT_KEY, 7).unwrap());
    assert_eq!(store.get(COUNT_KEY, 3).unwrap(), Some(&Comp::Count(1)));
}

#[test]
fn clear_all_restores_fresh_state() {
    let mut store = three_type_store(6);
    store.insert(TEXT_KEY, 0, Comp::Text(String::from("x"))).unwrap();
    store.insert(COUNT_KEY, 5, Comp::Count(1)).unwrap();
    store.clear_all();
    for slot in 0..6 {
        assert!(!store.has(TEXT_KEY, slot).unwrap());
        assert!(!store.has(COUNT_KEY, slot).unwrap());
        assert!(!store.has(NUMBER_KEY, slot).unwrap());
    }
}

#[test]
fn len_reports_slot_count() {
    let store: Tiles<i32> = Tiles::new(42);
    assert_eq!(store.len(), 42);
    let empty: Tiles<i32> = Tiles::new(0);
    assert_eq!(empty.len(), 0);
}

#[test]
fn slot_out_of_range_on_every_slot_operation() {
    let mut store: Tiles<i32> = Tiles::new(3);
    store.register(1).unwrap();
    assert_eq!(store.insert(1, 3, 5), Err(TilesError::SlotOutOfRange));
    assert_eq!(store.remove(1, 3), Err(TilesError::SlotOutOfRange));
    assert_eq!(store.has(1, 3), Err(TilesError::SlotOutOfRange));
    assert_eq!(store.get(1, 3), Err(TilesError::SlotOutOfRange));
    assert_eq!(store.take(1, 3), Err(TilesError::SlotOutOfRange));
    assert_eq!(store.clear(3), Err(TilesError::SlotOutOfRange));
    assert_eq!(store.move_slot(0, 3), Err(TilesError::SlotOutOfRange));
    assert_eq!(store.move_slot(3, 0), Err(TilesError::SlotOutOfRange));
    assert_eq!(store.get_mut(1, 3), Err(TilesError::SlotOutOfRange));
}

#[test]
fn slot_out_of_range_in_zero_size_store() {
    let mut store: Tiles<i32> = Tiles::new(0);
    store.register(1).unwrap();
    assert_eq!(store.insert(1, 0, 5), Err(TilesError::SlotOutOfRange));
}

#[test]
fn type_not_declared_on_every_typed_operation() {
    let mut store: Tiles<i32> = Tiles::new(3);
    assert_eq!(store.insert(1, 0, 5), Err(TilesError::TypeNotDeclared));
    assert_eq!(store.remove(1, 0), Err(TilesError::TypeNotDeclared));
    assert_eq!(store.has(1, 0), Err(TilesError::TypeNotDeclared));
    assert_eq!(store.get(1, 0), Err(TilesError::TypeNotDeclared));
    assert_eq!(store.take(1, 0), Err(TilesError::TypeNotDeclared));
    assert_eq!(store.clear_column(1), Err(TilesError::TypeNotDeclared));
    assert_eq!(store.get_mut(1, 0), Err(TilesError::TypeNotDeclared));
    assert!(store.get_components(1).is_err());
    assert!(store.get_components_mut(1).is_err());
}

#[test]
fn bounds_error_reported_before_registry_error() {
    let mut store: Tiles<i32> = Tiles::new(3);
    assert_eq!(store.insert(1, 9, 5), Err(TilesError::SlotOutOfRange));
}

#[test]
fn register_twice_is_already_declared() {
    let mut store: Tiles<i32> = Tiles::new(3);
    assert_eq!(store.register(1), Ok(()));
    assert_eq!(store.register(1), Err(TilesError::AlreadyDeclared));
    store.insert(1, 0, 5).unwrap();
    assert_eq!(store.register(1), Err(TilesError::AlreadyDeclared));
    assert_eq!(store.get(1, 0).unwrap(), Some(&5));
}

#[test]
fn with_types_rejects_duplicate_keys() {
    let keys = vec![1, 2, 1];
    let built: Result<Tiles<i32>, TilesError> = Tiles::with_types(3, &keys);
    assert_eq!(built.err(), Some(TilesError::AlreadyDeclared));
}

#[test]
fn get_components_exposes_the_column() {
    let mut store: Tiles<i32> = Tiles::new(4);
    store.register(1).unwrap();
    store.insert(1, 2, 33).unwrap();
    let column = store.get_components(1).unwrap();
    assert_eq!(column.len(), 4);
    assert_eq!(column[2], Some(33));
    assert_eq!(column[0], None);
}

#[test]
fn get_components_mut_edits_are_visible() {
    let mut store: Tiles<i32> = Tiles::new(4);
    store.register(1).unwrap();
    let column = store.get_components_mut(1).unwrap();
    column[3] = Some(44);
    assert_eq!(store.get(1, 3).unwrap(), Some(&44));
}

#[test]
fn get_mut_edits_are_visible() {
    let mut store: Tiles<i32> = Tiles::new(4);
    store.register(1).unwrap();
    store.insert(1, 2, 10).unwrap();
    if let Some(cell) = store.get_mut(1, 2).unwrap() {
        *cell = 20;
    } else {
        panic!("cell unexpectedly vacant");
    }
    assert_eq!(store.get(1, 2).unwrap(), Some(&20));
    assert_eq!(store.get_mut(1, 3).unwrap(), None);
}
