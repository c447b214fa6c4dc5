use rtd::model::Item;
use rtd::service::{self, ListType};
use rtd::storage::{self, Csv, StorageError};

const HEADER: &str = "id,name,completed,deleted,createdAt,completedAt,deletedAt\n";

fn ids(items: &[Item]) -> Vec<u32> {
    items.iter().map(|i| i.id()).collect()
}

#[test]
fn new_store_holds_header() {
    let csv = Csv::with_header();
    assert_eq!(csv.content(), HEADER);
    assert!(storage::get_all(&csv).is_empty());
    assert_eq!(storage::get_max_id(&csv), 0);
}

#[test]
fn splice_keeps_surroundings() {
    let mut csv = Csv::from_text("hello world");
    csv.splice(6, 5, "there, friend");
    assert_eq!(csv.content(), "hello there, friend");
    csv.splice(0, 6, "");
    assert_eq!(csv.content(), "there, friend");
    csv.splice(13, 0, "!");
    assert_eq!(csv.content(), "there, friend!");
    let before = csv.content();
    csv.splice(3, 2, "XYZ");
    let after = csv.content();
    assert_eq!(&after[..3], &before[..3]);
    assert_eq!(&after[6..], &before[5..]);
    assert_eq!(after.len(), before.len() + 3 - 2);
}

#[test]
fn lookup_offsets_count_skipped_lines() {
    let text = format!("{HEADER}garbage\n3,c,false,false,,,\n1,a,true,false,5,6,\n");
    let csv = Csv::from_text(&text);
    assert_eq!(storage::get_offset_by_id(&csv, 3), Ok(HEADER.len() + 8));
    assert_eq!(storage::get_offset_by_id(&csv, 1), Ok(HEADER.len() + 8 + 19));
    assert_eq!(storage::get_offset_by_id(&csv, 9), Err(StorageError::ItemNoExist(9)));
    let item = storage::get_item_by_id(&csv, 1).unwrap();
    assert!(item.completed());
    assert_eq!(item.completed_at(), Some(6));
    assert!(matches!(storage::get_item_by_id(&csv, 2), Err(StorageError::ItemNoExist(2))));
    assert_eq!(ids(&storage::get_all(&csv)), vec![3, 1]);
    assert_eq!(storage::get_max_id(&csv), 3);
}

#[test]
fn update_replaces_record_of_other_length() {
    let text = format!("{HEADER}0,a,false,false,1,,\n1,b,false,false,2,,\n");
    let mut csv = Csv::from_text(&text);
    let item = Item::new(0, "a much longer name", true, false, Some(1), Some(3), None);
    assert_eq!(storage::update_item(&mut csv, item), Ok(()));
    assert_eq!(
        csv.content(),
        format!("{HEADER}0,a much longer name,true,false,1,3,\n1,b,false,false,2,,\n")
    );
    let missing = Item::new(5, "x", false, false, None, None, None);
    assert_eq!(storage::update_item(&mut csv, missing), Err(StorageError::ItemNoExist(5)));
}

#[test]
fn destroy_removes_line_and_newline() {
    let text = format!("{HEADER}0,a,false,false,1,,\n1,b,false,false,2,,\n");
    let mut csv = Csv::from_text(&text);
    assert_eq!(storage::destroy_item(&mut csv, 0), Ok(()));
    assert_eq!(csv.content(), format!("{HEADER}1,b,false,false,2,,\n"));
    assert_eq!(storage::destroy_item(&mut csv, 0), Err(StorageError::ItemNoExist(0)));
    let mut last = Csv::from_text("0,a,false,false,,,");
    assert_eq!(storage::destroy_item(&mut last, 0), Ok(()));
    assert_eq!(last.content(), "");
}

#[test]
fn add_appends_record() {
    let mut csv = Csv::with_header();
    storage::add_item(&mut csv, Item::new(4, "n,m", false, false, Some(8), None, None));
    assert_eq!(csv.content(), format!("{HEADER}4,n<@^_fake_comma_$#>m,false,false,8,,\n"));
}

#[test]
fn add_then_complete_then_list() {
    let mut csv = Csv::with_header();
    assert_eq!(service::add_item_at(&mut csv, "buy milk", 1000).unwrap(), "Added 0");
    let all = storage::get_all(&csv);
    assert_eq!(all.len(), 1);
    assert_eq!(all[0].id(), 0);
    assert_eq!(all[0].name(), "buy milk");
    assert!(!all[0].completed());
    assert!(!all[0].deleted());
    assert_eq!(all[0].created_at(), Some(1000));
    assert_eq!(service::complete_item_at(&mut csv, 0, 2000).unwrap(), "Completed 0");
    let item = storage::get_item_by_id(&csv, 0).unwrap();
    assert!(item.completed());
    assert_eq!(item.completed_at(), Some(2000));
    assert_eq!(ids(&service::list_items(&csv, ListType::Completed)), vec![0]);
    assert!(service::list_items(&csv, ListType::Uncompleted).is_empty());
}

#[test]
fn destroy_then_add_allocates_next() {
    let mut csv = Csv::with_header();
    service::add_item_at(&mut csv, "one", 1).unwrap();
    service::add_item_at(&mut csv, "two", 2).unwrap();
    assert_eq!(service::destroy_item(&mut csv, 0).unwrap(), "Destroyed 0");
    assert_eq!(ids(&service::list_items(&csv, ListType::All)), vec![1]);
    assert_eq!(service::add_item_at(&mut csv, "three", 3).unwrap(), "Added 2");
    assert_eq!(ids(&service::list_items(&csv, ListType::All)), vec![1, 2]);
}

#[test]
fn ids_are_sequential_from_zero() {
    let mut csv = Csv::with_header();
    for n in 0..5u32 {
        assert_eq!(service::add_item_at(&mut csv, "t", n as i64).unwrap(), format!("Added {n}"));
    }
    assert_eq!(ids(&storage::get_all(&csv)), vec![0, 1, 2, 3, 4]);
    service::delete_item_at(&mut csv, 4, 9).unwrap();
    service::destroy_item(&mut csv, 2).unwrap();
    service::add_item_at(&mut csv, "u", 10).unwrap();
    assert_eq!(ids(&storage::get_all(&csv)), vec![0, 1, 3, 4, 5]);
}

#[test]
fn ids_exhausted() {
    let mut csv = Csv::from_text(&format!("{HEADER}4294967295,x,false,false,,,\n"));
    let before = csv.content();
    assert_eq!(service::add_item_at(&mut csv, "y", 1), Err(StorageError::IdsExhausted));
    assert_eq!(csv.content(), before);
}

#[test]
fn delete_then_restore() {
    let mut csv = Csv::with_header();
    service::add_item_at(&mut csv, "walk", 5).unwrap();
    let before = storage::get_item_by_id(&csv, 0).unwrap();
    assert_eq!(service::delete_item_at(&mut csv, 0, 6).unwrap(), "Deleted 0");
    let deleted = storage::get_item_by_id(&csv, 0).unwrap();
    assert!(deleted.deleted());
    assert_eq!(deleted.deleted_at(), Some(6));
    assert_eq!(ids(&service::list_items(&csv, ListType::Deleted)), vec![0]);
    assert_eq!(service::restore_item(&mut csv, 0).unwrap(), "Restored 0");
    let back = storage::get_item_by_id(&csv, 0).unwrap();
    assert_eq!(back.to_string(), before.to_string());
    assert!(service::list_items(&csv, ListType::Deleted).is_empty());
}

#[test]
fn uncomplete_clears_time() {
    let mut csv = Csv::with_header();
    service::add_item_at(&mut csv, "a", 1).unwrap();
    service::complete_item_at(&mut csv, 0, 2).unwrap();
    assert_eq!(service::uncomplete_item(&mut csv, 0).unwrap(), "Uncompleted 0");
    let item = storage::get_item_by_id(&csv, 0).unwrap();
    assert!(!item.completed());
    assert_eq!(item.completed_at(), None);
}

#[test]
fn destroyed_task_is_gone() {
    let mut csv = Csv::with_header();
    service::add_item_at(&mut csv, "a", 1).unwrap();
    service::add_item_at(&mut csv, "b", 1).unwrap();
    service::destroy_item(&mut csv, 1).unwrap();
    assert!(matches!(storage::get_item_by_id(&csv, 1), Err(StorageError::ItemNoExist(1))));
    assert_eq!(service::restore_item(&mut csv, 1), Err(StorageError::ItemNoExist(1)));
    assert_eq!(service::complete_item_at(&mut csv, 1, 3), Err(StorageError::ItemNoExist(1)));
    assert_eq!(service::destroy_item(&mut csv, 1), Err(StorageError::ItemNoExist(1)));
}

#[test]
fn listing_shows_times() {
    let mut csv = Csv::with_header();
    assert_eq!(service::add_item_at(&mut csv, "now", 1_700_000_000).unwrap(), "Added 0");
    service::complete_item_at(&mut csv, 0, 1_700_000_100).unwrap();
    service::delete_item_at(&mut csv, 0, 1_700_000_200).unwrap();
    let item = storage::get_item_by_id(&csv, 0).unwrap();
    assert_eq!(item.completed_at(), Some(1_700_000_100));
    assert_eq!(item.deleted_at(), Some(1_700_000_200));
    let text = service::list(&csv, ListType::All);
    assert!(text.starts_with("  0 \u{2705} \u{1f6ae} now\n\n\tCreated at: "));
    assert!(text.contains("\n\tCompleted at: "));
    assert!(text.contains("\n\tDeleted at: "));
    assert_eq!(service::list(&csv, ListType::Uncompleted), "");
}

#[test]
fn name_with_newline_stays_one_record() {
    let mut csv = Csv::with_header();
    service::add_item_at(&mut csv, "first\nsecond", 1).unwrap();
    service::add_item_at(&mut csv, "next", 2).unwrap();
    let all = storage::get_all(&csv);
    assert_eq!(ids(&all), vec![0, 1]);
    assert_eq!(all[0].name(), "first\nsecond");
    assert_eq!(csv.content().matches('\n').count(), 3);
}

#[test]
fn delete_then_restore_gives_same_text() {
    let mut csv = Csv::with_header();
    service::add_item_at(&mut csv, "keep, me", 5).unwrap();
    service::add_item_at(&mut csv, "other", 6).unwrap();
    let before = csv.content();
    service::delete_item_at(&mut csv, 0, 1234567).unwrap();
    assert_ne!(csv.content(), before);
    service::restore_item(&mut csv, 0).unwrap();
    assert_eq!(csv.content(), before);
}
