use ruspledb::record::layout::Layout;
use ruspledb::record::rid::RID;
use ruspledb::record::schema::Schema;

#[test]
fn layout_integration_tx() {
    let mut schema = Schema::new();
    schema.add_string_field("A", 9);
    schema.add_int_field("B");
    let layout = Layout::new(&schema);
    let mut seen = Vec::new();
    for field_name in layout.schema().fields().iter() {
        let offset = layout.offset(field_name);
        seen.push((field_name.clone(), offset));
    }
    assert_eq!(seen, vec![("A".to_string(), 4), ("B".to_string(), 17)]);
    assert_eq!(layout.slot_size(), 25);
}

#[test]
fn schema_keeps_what_was_said_last() {
    let mut schema = Schema::new();
    assert_eq!(schema.fields(), Vec::<String>::new());
    schema.add_int_field("A");
    schema.add_string_field("B", 9);
    schema.add_field("C", 7, 3);
    assert_eq!(schema.get_type("A"), 4);
    assert_eq!(schema.length("A"), 0);
    assert_eq!(schema.get_type("B"), 12);
    assert_eq!(schema.length("B"), 9);
    assert_eq!(schema.get_type("C"), 7);
    assert_eq!(schema.length("C"), 3);
    assert!(schema.has_field("C"));
    assert!(!schema.has_field("D"));
    assert_eq!(schema.find("B"), Some(1));
    schema.add_string_field("A", 20);
    assert_eq!(schema.fields(), vec!["A", "B", "C", "A"]);
    assert_eq!(schema.get_type("A"), 12);
    assert_eq!(schema.length("A"), 20);
    assert_eq!(schema.find("A"), Some(3));
    let copy = schema.clone();
    assert_eq!(copy.fields(), schema.fields());
}

#[test]
fn layout_offsets_follow_the_fields() {
    let mut schema = Schema::new();
    schema.add_int_field("A");
    schema.add_string_field("B", 9);
    let layout = Layout::new(&schema);
    assert_eq!(layout.offset("A"), 4);
    assert_eq!(layout.offset("B"), 12);
    assert_eq!(layout.slot_size(), 25);
    assert!(layout.has_field("B"));
    assert!(!layout.has_field("C"));
    let copy = layout.clone();
    assert_eq!(copy.slot_size(), 25);
    assert_eq!(Layout::new(&Schema::new()).slot_size(), 4);
}

#[test]
fn rid_holds_block_and_slot() {
    let rid = RID::new(3, 14);
    assert_eq!(rid.blk_num(), 3);
    assert_eq!(rid.slot(), 14);
}
