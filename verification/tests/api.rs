use spin_geospatial::api::{
    checkin_departments, current_zone, department_object_id, display_name, health_response, hero_for_department,
    name_matches_query, parse_query_string, point_query_range, promos_endpoint, query_param, slug,
    store_display_name, store_not_found,
};
use spin_geospatial::events::ZoneObject;

fn obj(t: &str, id: &str, dept: Option<&str>) -> ZoneObject {
    ZoneObject { obj_type: t.to_string(), id: id.to_string(), department: dept.map(|d| d.to_string()) }
}

#[test]
fn query_strings() {
    let pairs = parse_query_string("/api/v1/checkin?lat=40.7&lon=-73.9&deviceId=phone&x&lat=1");
    assert_eq!(query_param(&pairs, "lat"), Some("1".to_string()));
    assert_eq!(query_param(&pairs, "lon"), Some("-73.9".to_string()));
    assert_eq!(query_param(&pairs, "deviceId"), Some("phone".to_string()));
    assert_eq!(query_param(&pairs, "x"), None);
    assert_eq!(pairs.len(), 4);
    assert_eq!(parse_query_string("/health").len(), 0);
    let p = parse_query_string("/a?q=a=b?c=d");
    assert_eq!(query_param(&p, "q"), Some("a=b".to_string()));
    assert_eq!(query_param(&p, "c"), None);
}

#[test]
fn slugs() {
    assert_eq!(slug("Children"), "children");
    assert_eq!(slug("Audio Visual Room"), "audio-visual-room");
}

#[test]
fn department_search() {
    assert!(name_matches_query("Fiction", "fic"));
    assert!(name_matches_query("nonfiction", "FICTION"));
    assert!(name_matches_query("reference", ""));
    assert!(!name_matches_query("children", "adult"));
}

#[test]
fn checkin_department_list() {
    let objs = vec![obj("store", "nypl", None), obj("department", "nypl-a", Some("Young Adult")), obj("department", "nypl-b", None)];
    let d = checkin_departments(&objs);
    assert_eq!(d.len(), 2);
    assert_eq!(d[0].name, "Young Adult");
    assert_eq!(d[0].slug, "young-adult");
    assert_eq!(d[1].name, "nypl-b");
}

#[test]
fn zone_is_the_first_department_tag() {
    assert_eq!(current_zone(&vec![obj("store", "s", None), obj("department", "a", Some("fiction"))]), Some("fiction".to_string()));
    assert_eq!(current_zone(&vec![obj("department", "a", None), obj("department", "b", Some("fiction"))]), None);
    assert_eq!(current_zone(&vec![]), None);
}

#[test]
fn heroes_per_zone() {
    let h = hero_for_department("children");
    assert_eq!(h.title, "Storytime today at 3:00pm — all ages welcome");
    assert_eq!(h.coupon_code, Some("EVT-STORYTIME".to_string()));
    assert_eq!(hero_for_department("reference").coupon_code, None);
    assert_eq!(hero_for_department("fiction").coupon_code, Some("NEW-ARRIVALS".to_string()));
    assert_eq!(hero_for_department("periodicals").title, "Today's papers and magazines have arrived");
    assert_eq!(hero_for_department("computers").title, "Free Wi-Fi — computers reservable in 1-hour blocks");
    assert_eq!(hero_for_department("community").title, "Welcome to the community section");
}

#[test]
fn names_and_paths() {
    assert_eq!(promos_endpoint("nypl"), "/api/v1/stores/nypl/context");
    assert_eq!(store_not_found("x"), "Store x not found");
    assert_eq!(display_name(Some("Main"), Some("d"), "id"), "Main");
    assert_eq!(display_name(None, Some("d"), "id"), "d");
    assert_eq!(display_name(None, None, "id"), "id");
    assert_eq!(department_object_id("nypl", "fiction"), "nypl-fiction");
    assert_eq!(store_display_name("nypl", None), "Store #nypl");
    assert_eq!(store_display_name("nypl", Some("Mid")), "Mid");
    assert_eq!(point_query_range(1), (3, 1));
    assert_eq!(point_query_range(9), (9, 9));
}

#[test]
fn health() {
    let h = health_response();
    assert_eq!(h.status, "ok");
    assert_eq!(h.endpoints.len(), 10);
    assert_eq!(h.service, "spin-geospatial-demo");
    assert_eq!(h.version, "0.1.0");
    assert_eq!(h.architecture.event_detection, "Stateful enter/exit/dwell with 3-ping hysteresis");
    assert_eq!(h.key_schema.device_state, "dev:{device_id} → JSON DeviceState");
    assert_eq!(h.endpoints[5], "GET  /query/store/:storeId       — Store lookup");
}
