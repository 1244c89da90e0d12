use spin_geospatial::geohash::Direction;
use spin_geospatial::index::{
    area_read_plan, department_index_key, duplicates_eliminated, neighbor_directions_for_precision, paint_result, parent_cells,
    plan_paint, point_read_plan, summarize_reads, upward_paint_precisions,
};
use spin_geospatial::refs::{
    append_ref, dedup_refs, device_key, object_key, object_ref, ref_name, ref_parts, spatial_key, store_departments_key,
    stored_refs,
};

fn strings(v: &[&str]) -> Vec<String> {
    v.iter().map(|s| s.to_string()).collect()
}

#[test]
fn keys_follow_the_schema() {
    assert_eq!(spatial_key(8, "dr5ru6zu"), "spatial:8:dr5ru6zu");
    assert_eq!(spatial_key(10, "9mupwu1758"), "spatial:10:9mupwu1758");
    assert_eq!(object_ref("store", "nypl"), "store:nypl");
    assert_eq!(object_key("store:nypl"), "obj:store:nypl");
    assert_eq!(device_key("phone-001"), "dev:phone-001");
    assert_eq!(store_departments_key("nypl"), "store-depts:nypl");
}

#[test]
fn reference_parts() {
    assert_eq!(ref_name("store:a|40.753182|-73.982253"), "store:a");
    assert_eq!(ref_name("store:a"), "store:a");
    assert_eq!(
        ref_parts("store:a|40.753182|-73.982253"),
        ("store:a".to_string(), Some("40.753182".to_string()), Some("-73.982253".to_string()))
    );
    assert_eq!(ref_parts("store:a"), ("store:a".to_string(), None, None));
    assert_eq!(ref_parts("store:a|1"), ("store:a".to_string(), Some("1".to_string()), None));
    assert_eq!(ref_parts("x|1|2|3"), ("x".to_string(), Some("1".to_string()), Some("2|3".to_string())));
}

#[test]
fn stored_reference_lists() {
    assert_eq!(stored_refs(None), Vec::<String>::new());
    assert_eq!(stored_refs(Some(b"not json")), Vec::<String>::new());
    assert_eq!(stored_refs(Some(br#"["a|1|2","b"]"#)), strings(&["a|1|2", "b"]));
}

#[test]
fn append_adds_a_new_reference() {
    let out = append_ref(Some(br#"["store:a|1|2"]"#), "store:b|3|4").unwrap();
    assert_eq!(stored_refs(Some(&out)), strings(&["store:a|1|2", "store:b|3|4"]));
    let first = append_ref(None, "store:a|1|2").unwrap();
    assert_eq!(stored_refs(Some(&first)), strings(&["store:a|1|2"]));
}

#[test]
fn append_skips_a_reference_already_named() {
    assert_eq!(append_ref(Some(br#"["store:a|1|2"]"#), "store:a|9|9"), None);
    assert_eq!(append_ref(Some(br#"["store:a"]"#), "store:a|1|2"), None);
    let once = append_ref(None, "store:a|1|2").unwrap();
    assert_eq!(append_ref(Some(&once), "store:a|1|2"), None);
}

#[test]
fn neighbor_reads_per_precision() {
    assert_eq!(neighbor_directions_for_precision(10).len(), 0);
    assert_eq!(neighbor_directions_for_precision(12).len(), 0);
    assert_eq!(
        neighbor_directions_for_precision(9),
        vec![Direction::North, Direction::East, Direction::South, Direction::West]
    );
    assert_eq!(neighbor_directions_for_precision(8).len(), 8);
    assert_eq!(neighbor_directions_for_precision(0).len(), 8);
}

#[test]
fn upward_precisions() {
    assert_eq!(upward_paint_precisions(10), vec![9]);
    assert_eq!(upward_paint_precisions(9), vec![8]);
    assert_eq!(upward_paint_precisions(8), vec![7, 5, 4, 3]);
    assert_eq!(upward_paint_precisions(7), Vec::<u8>::new());
    assert_eq!(upward_paint_precisions(12), Vec::<u8>::new());
}

#[test]
fn parents_are_distinct_prefixes() {
    let cells = strings(&["dr5ru6zu", "dr5ru6zv", "dr5ru7aa", "dr5"]);
    assert_eq!(parent_cells(&cells, 7), strings(&["dr5ru6z", "dr5ru7a"]));
    assert_eq!(parent_cells(&cells, 3), strings(&["dr5"]));
}

#[test]
fn painting_writes_native_and_upward_keys() {
    let cells = strings(&["dr5ru6zu", "dr5ru6zv"]);
    let plan = plan_paint("store", "nypl", 8, &cells);
    assert_eq!(plan.object_ref, "store:nypl");
    assert_eq!(plan.native_keys, strings(&["spatial:8:dr5ru6zu", "spatial:8:dr5ru6zv"]));
    assert_eq!(
        plan.upward_keys,
        strings(&["spatial:7:dr5ru6z", "spatial:5:dr5ru", "spatial:4:dr5r", "spatial:3:dr5"])
    );
    assert_eq!(plan.cells_painted, 6);
    let result = paint_result(plan, "dr5ru6zu".to_string(), 8, cells.clone());
    assert_eq!(result.cell_size, "~38m x 19m");
    assert_eq!(result.cells_painted, 6);
    assert_eq!(result.cells, cells);
}

#[test]
fn painting_at_other_precisions_writes_no_upward_keys() {
    let plan = plan_paint("department", "x-children", 7, &strings(&["9mupwu1"]));
    assert_eq!(plan.upward_keys.len(), 0);
    assert_eq!(plan.cells_painted, 1);
}

#[test]
fn point_query_reads_the_painted_keys() {
    let painted = plan_paint("store", "nypl", 8, &strings(&["dr5ru6zu"]));
    let reads = point_read_plan("dr5ru6zu1234", 3, 8, false);
    let keys: Vec<String> = reads.iter().map(|r| r.key.clone()).collect();
    assert_eq!(
        keys,
        strings(&["spatial:3:dr5", "spatial:4:dr5r", "spatial:5:dr5ru", "spatial:6:dr5ru6", "spatial:7:dr5ru6z", "spatial:8:dr5ru6zu"])
    );
    for k in painted.native_keys.iter().chain(painted.upward_keys.iter()) {
        assert!(keys.contains(k));
    }
}

#[test]
fn point_query_with_neighbors() {
    let reads = point_read_plan("9mupwu175899", 9, 10, true);
    assert_eq!(reads.len(), 1 + 4 + 1);
    assert_eq!(reads[0].key, "spatial:9:9mupwu175");
    assert_eq!(reads[0].direction, None);
    assert_eq!(reads[1].direction, Some(Direction::North));
    assert_eq!(reads[5].key, "spatial:10:9mupwu1758");
    let empty = point_read_plan("9mupwu175899", 5, 4, true);
    assert_eq!(empty.len(), 0);
}

#[test]
fn area_query_plan() {
    let (p, reads) = area_read_plan("9q", true);
    assert_eq!(p, 2);
    assert_eq!(reads.len(), 9);
    assert_eq!(reads[0].key, "spatial:2:9q");
    assert_eq!(reads[3].key, "spatial:2:9w");
    let (p, reads) = area_read_plan("9mupwu1758", true);
    assert_eq!(p, 10);
    assert_eq!(reads.len(), 1);
    let long = format!("9q{}", "0".repeat(258));
    let (p, reads) = area_read_plan(&long, true);
    assert_eq!(p, 4);
    assert_eq!(reads.len(), 9);
    assert_eq!(reads[0].key, format!("spatial:4:{long}"));
    assert_eq!(reads[1].key, "spatial:4:9q00");
    assert_eq!(reads[1].cell, "9q00");
    assert_eq!(reads[7].key, "spatial:4:9npb");
}

#[test]
fn summaries_keep_the_first_reference_of_each_object() {
    let reads = point_read_plan("9mupwu175899", 9, 9, true);
    let mut results = vec![Vec::new(); reads.len()];
    results[0] = strings(&["store:a|1|2", "department:a-x|3|4"]);
    results[2] = strings(&["store:a|5|6", "store:b|7|8"]);
    let s = summarize_reads(&reads, &results, true);
    assert_eq!(s.unique_refs, strings(&["store:a|1|2", "department:a-x|3|4", "store:b|7|8"]));
    assert_eq!(s.total_refs, 4);
    assert_eq!(s.cells_queried.len(), 2);
    assert_eq!(s.cells_queried[0].precision, Some(9));
    assert_eq!(s.cells_queried[0].refs, 2);
    assert_eq!(s.cells_queried[1].direction, Some("e".to_string()));
    let untagged = summarize_reads(&reads, &results, false);
    assert_eq!(untagged.cells_queried[0].precision, None);
}

#[test]
fn department_objects_join_their_venue_list() {
    assert_eq!(department_index_key("department", Some("nypl")), Some("store-depts:nypl".to_string()));
    assert_eq!(department_index_key("department", None), None);
    assert_eq!(department_index_key("store", Some("nypl")), None);
}

#[test]
fn dedup_keeps_first_occurrences() {
    assert_eq!(
        dedup_refs(&strings(&["department:a-x", "department:a-y", "department:a-x", "department:a-z", "department:a-y"])),
        strings(&["department:a-x", "department:a-y", "department:a-z"])
    );
    assert_eq!(dedup_refs(&Vec::new()), Vec::<String>::new());
}

#[test]
fn duplicate_counts() {
    assert_eq!(duplicates_eliminated(7, 3, 1), 5);
    assert_eq!(duplicates_eliminated(3, 3, 0), 0);
    assert_eq!(duplicates_eliminated(2, 3, 2), 2);
}
