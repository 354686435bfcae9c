use persistent_store::{Format, StoreError, StoreModel, StoreOperation, StoreUpdate};

fn small_format() -> Format {
    Format::new(10, 100, 8, 4, 4).unwrap()
}

fn insert(key: usize, value: &[u8]) -> StoreUpdate {
    StoreUpdate::Insert { key, value: value.to_vec() }
}

fn remove(key: usize) -> StoreUpdate {
    StoreUpdate::Remove { key }
}

fn transaction(updates: Vec<StoreUpdate>) -> StoreOperation {
    StoreOperation::Transaction { updates }
}

fn content_of(model: &StoreModel) -> Vec<(usize, Vec<u8>)> {
    model.content().clone()
}

#[test]
fn scenario_lone_insert() {
    let mut model = StoreModel::new(small_format());
    assert_eq!(model.format().bytes_to_words(4), 1);
    assert_eq!(model.apply(transaction(vec![insert(1, &[0, 0, 0, 0])])), Ok(()));
    assert_eq!(content_of(&model), vec![(1, vec![0, 0, 0, 0])]);
    assert_eq!(model.capacity().used(), 2);
    assert_eq!(model.capacity().total(), 10);
    assert_eq!(model.capacity().remaining(), 8);
}

#[test]
fn scenario_duplicate_keys() {
    let mut model = StoreModel::new(small_format());
    model.apply(transaction(vec![insert(1, &[0, 0, 0, 0])])).unwrap();
    let before = content_of(&model);
    let result = model.apply(transaction(vec![insert(2, &[1]), insert(2, &[2])]));
    assert_eq!(result, Err(StoreError::InvalidArgument));
    assert_eq!(content_of(&model), before);
    assert_eq!(model.capacity().used(), 2);
}

#[test]
fn scenario_prepare_too_much() {
    let mut model = StoreModel::new(small_format());
    model.apply(transaction(vec![insert(1, &[0, 0, 0, 0])])).unwrap();
    assert_eq!(model.capacity().remaining(), 8);
    let before = content_of(&model);
    assert_eq!(model.apply(StoreOperation::Prepare { length: 9 }), Err(StoreError::NoCapacity));
    assert_eq!(content_of(&model), before);
    assert_eq!(model.capacity().used(), 2);
    assert_eq!(model.capacity().remaining(), 8);
    assert_eq!(model.apply(StoreOperation::Prepare { length: 8 }), Ok(()));
    assert_eq!(content_of(&model), before);
}

#[test]
fn scenario_clear_threshold() {
    let mut model = StoreModel::new(small_format());
    model.apply(transaction(vec![insert(1, &[1])])).unwrap();
    model.apply(transaction(vec![insert(5, &[5, 5, 5, 5, 5])])).unwrap();
    let used_before = model.capacity().used();
    assert_eq!(used_before, 2 + 3);
    assert_eq!(model.apply(StoreOperation::Clear { min_key: 2 }), Ok(()));
    assert_eq!(content_of(&model), vec![(1, vec![1])]);
    // The entry of key 5 took one header word and two payload words.
    assert_eq!(model.capacity().used(), used_before - 3);
}

#[test]
fn scenario_empty_transaction_when_full() {
    let mut model = StoreModel::new(small_format());
    // Three entries of three words each leave one word free.
    model.apply(transaction(vec![insert(1, &[1; 8])])).unwrap();
    model.apply(transaction(vec![insert(2, &[2; 8])])).unwrap();
    model.apply(transaction(vec![insert(3, &[3; 5])])).unwrap();
    assert_eq!(model.capacity().remaining(), 1);
    model.apply(transaction(vec![insert(4, &[])])).unwrap();
    assert_eq!(model.capacity().remaining(), 0);
    let before = content_of(&model);
    assert_eq!(model.apply(transaction(vec![])), Ok(()));
    assert_eq!(content_of(&model), before);
}

#[test]
fn duplicate_keys_refused_among_several() {
    let mut model = StoreModel::new(small_format());
    let result = model.apply(transaction(vec![insert(3, &[1]), remove(7), remove(3)]));
    assert_eq!(result, Err(StoreError::InvalidArgument));
    assert!(content_of(&model).is_empty());
    let result = model.apply(transaction(vec![remove(4), remove(4)]));
    assert_eq!(result, Err(StoreError::InvalidArgument));
}

#[test]
fn key_above_bound_refused() {
    let mut model = StoreModel::new(small_format());
    assert_eq!(model.apply(transaction(vec![insert(101, &[1])])), Err(StoreError::InvalidArgument));
    assert_eq!(model.apply(transaction(vec![remove(101)])), Err(StoreError::InvalidArgument));
    assert_eq!(model.apply(transaction(vec![insert(100, &[1])])), Ok(()));
    assert_eq!(content_of(&model), vec![(100, vec![1])]);
}

#[test]
fn value_above_bound_refused() {
    let mut model = StoreModel::new(small_format());
    assert_eq!(
        model.apply(transaction(vec![insert(1, &[0; 9])])),
        Err(StoreError::InvalidArgument)
    );
    assert!(content_of(&model).is_empty());
    assert_eq!(model.apply(transaction(vec![insert(1, &[0; 8])])), Ok(()));
}

#[test]
fn too_many_updates_refused() {
    let mut model = StoreModel::new(Format::new(100, 100, 8, 4, 4).unwrap());
    let updates = vec![remove(1), remove(2), remove(3), remove(4), remove(5)];
    assert_eq!(model.apply(transaction(updates)), Err(StoreError::InvalidArgument));
    let updates = vec![remove(1), remove(2), remove(3), remove(4)];
    assert_eq!(model.apply(transaction(updates)), Ok(()));
}

#[test]
fn clear_threshold_above_bound_refused() {
    let mut model = StoreModel::new(small_format());
    model.apply(transaction(vec![insert(100, &[1])])).unwrap();
    assert_eq!(model.apply(StoreOperation::Clear { min_key: 101 }), Err(StoreError::InvalidArgument));
    assert_eq!(content_of(&model), vec![(100, vec![1])]);
    assert_eq!(model.apply(StoreOperation::Clear { min_key: 100 }), Ok(()));
    assert!(content_of(&model).is_empty());
    assert_eq!(model.capacity().used(), 0);
}

#[test]
fn several_updates_pay_a_marker_and_each_update() {
    let mut model = StoreModel::new(small_format());
    model.apply(transaction(vec![insert(1, &[1, 2, 3, 4])])).unwrap();
    // Marker word, 3 words for the new entry, one word for the removal: 5 of the 8 free words.
    let result = model.apply(transaction(vec![insert(2, &[0; 8]), remove(1)]));
    assert_eq!(result, Ok(()));
    assert_eq!(content_of(&model), vec![(2, vec![0; 8])]);
    assert_eq!(model.capacity().used(), 3);
}

#[test]
fn several_updates_refused_when_short_by_one_word() {
    let mut model = StoreModel::new(small_format());
    model.apply(transaction(vec![insert(1, &[1, 2, 3, 4])])).unwrap();
    model.apply(transaction(vec![insert(2, &[1, 2, 3, 4])])).unwrap();
    assert_eq!(model.capacity().remaining(), 6);
    let before = content_of(&model);
    // Marker word, 3 words for key 3, 3 words for key 4: 7 words.
    let result = model.apply(transaction(vec![insert(3, &[0; 5]), insert(4, &[0; 5])]));
    assert_eq!(result, Err(StoreError::NoCapacity));
    assert_eq!(content_of(&model), before);
    assert_eq!(model.capacity().used(), 4);
    // Marker word, 3 words for key 3, 2 words for key 4: 6 words.
    let result = model.apply(transaction(vec![insert(3, &[0; 5]), insert(4, &[0; 4])]));
    assert_eq!(result, Ok(()));
    assert_eq!(model.capacity().remaining(), 1);
}

#[test]
fn lone_insert_refused_without_room() {
    let mut model = StoreModel::new(Format::new(10, 100, 20, 4, 4).unwrap());
    model.apply(transaction(vec![insert(1, &[0; 20])])).unwrap();
    assert_eq!(model.capacity().remaining(), 4);
    let before = content_of(&model);
    // Thirteen bytes take one header word and four payload words.
    assert_eq!(model.apply(transaction(vec![insert(2, &[0; 13])])), Err(StoreError::NoCapacity));
    assert_eq!(content_of(&model), before);
    assert_eq!(model.apply(transaction(vec![insert(2, &[0; 12])])), Ok(()));
    assert_eq!(model.capacity().remaining(), 0);
}

#[test]
fn lone_removal_needs_no_room() {
    let mut model = StoreModel::new(small_format());
    model.apply(transaction(vec![insert(1, &[0; 8])])).unwrap();
    model.apply(transaction(vec![insert(2, &[0; 8])])).unwrap();
    model.apply(transaction(vec![insert(3, &[0; 8])])).unwrap();
    model.apply(transaction(vec![insert(4, &[])])).unwrap();
    assert_eq!(model.capacity().remaining(), 0);
    assert_eq!(model.apply(transaction(vec![remove(2)])), Ok(()));
    assert_eq!(model.capacity().used(), 7);
    // Two removals need a marker word and a word each.
    assert_eq!(model.capacity().remaining(), 3);
    assert_eq!(model.apply(transaction(vec![remove(1), remove(3)])), Ok(()));
    assert_eq!(content_of(&model), vec![(4, vec![])]);
}

#[test]
fn removals_do_not_raise_used_words() {
    let mut model = StoreModel::new(Format::new(40, 100, 8, 4, 4).unwrap());
    model.apply(transaction(vec![insert(1, &[1]), insert(2, &[2; 6]), insert(3, &[3; 8])])).unwrap();
    let used = model.capacity().used();
    assert_eq!(used, 2 + 3 + 3);
    model.apply(transaction(vec![remove(2), remove(9)])).unwrap();
    assert!(model.capacity().used() <= used);
    assert_eq!(model.capacity().used(), 5);
    model.apply(StoreOperation::Clear { min_key: 0 }).unwrap();
    assert_eq!(model.capacity().used(), 0);
}

#[test]
fn clear_twice_same_as_once() {
    let mut model = StoreModel::new(Format::new(40, 100, 8, 4, 4).unwrap());
    model.apply(transaction(vec![insert(7, &[7]), insert(2, &[2]), insert(30, &[3])])).unwrap();
    model.apply(StoreOperation::Clear { min_key: 5 }).unwrap();
    let once = content_of(&model);
    assert_eq!(once, vec![(2, vec![2])]);
    assert_eq!(model.apply(StoreOperation::Clear { min_key: 5 }), Ok(()));
    assert_eq!(content_of(&model), once);
}

#[test]
fn insert_overwrites_and_removal_of_absent_key_succeeds() {
    let mut model = StoreModel::new(small_format());
    model.apply(transaction(vec![insert(3, &[1; 8])])).unwrap();
    assert_eq!(model.capacity().used(), 3);
    model.apply(transaction(vec![insert(3, &[9])])).unwrap();
    assert_eq!(content_of(&model), vec![(3, vec![9])]);
    assert_eq!(model.capacity().used(), 2);
    assert_eq!(model.apply(transaction(vec![remove(4)])), Ok(()));
    assert_eq!(content_of(&model), vec![(3, vec![9])]);
}

#[test]
fn content_is_ordered_by_key() {
    let mut model = StoreModel::new(Format::new(100, 100, 8, 10, 4).unwrap());
    model.apply(transaction(vec![insert(9, &[9]), insert(0, &[0]), insert(4, &[4])])).unwrap();
    model.apply(transaction(vec![insert(6, &[6])])).unwrap();
    let keys: Vec<usize> = content_of(&model).iter().map(|e| e.0).collect();
    assert_eq!(keys, vec![0, 4, 6, 9]);
}

#[test]
fn format_rejects_unusable_limits() {
    assert!(Format::new(10, 100, 8, 4, 0).is_none());
    assert!(Format::new(10, 100, usize::MAX, 4, 1).is_none());
    let format = Format::new(10, 100, usize::MAX - 1, 4, 1).unwrap();
    assert_eq!(format.max_value_len(), usize::MAX - 1);
    let format = small_format();
    assert_eq!(format.total_capacity(), 10);
    assert_eq!(format.max_key(), 100);
    assert_eq!(format.max_value_len(), 8);
    assert_eq!(format.max_updates(), 4);
    assert_eq!(format.word_size(), 4);
}

#[test]
fn bytes_round_up_to_words() {
    let format = small_format();
    assert_eq!(format.bytes_to_words(0), 0);
    assert_eq!(format.bytes_to_words(1), 1);
    assert_eq!(format.bytes_to_words(4), 1);
    assert_eq!(format.bytes_to_words(5), 2);
    assert_eq!(format.bytes_to_words(8), 2);
    assert_eq!(format.bytes_to_words(9), 3);
    let bytes = Format::new(10, 100, 8, 4, 1).unwrap();
    assert_eq!(bytes.bytes_to_words(7), 7);
}

#[test]
fn update_accessors() {
    let update = insert(5, &[1, 2]);
    assert_eq!(update.key(), 5);
    assert_eq!(update.value(), Some(&[1u8, 2][..]));
    let update = remove(6);
    assert_eq!(update.key(), 6);
    assert_eq!(update.value(), None);
}
