use vstd::prelude::*;

verus! {

/// What painting one object wrote to the spatial index.
#[derive(Debug)]
pub struct PaintResult {
    pub object_ref: String,
    pub center_geohash: String,
    pub precision: u8,
    pub cell_size: String,
    pub cells_painted: usize,
    pub cells: Vec<String>,
}

/// Answer to an object ingest.
#[derive(Debug)]
pub struct IngestObjectResponse {
    pub status: String,
    pub result: PaintResult,
}

/// Answer to a venue ingest: the venue and each of its departments.
#[derive(Debug)]
pub struct StoreIngestResponse {
    pub status: String,
    pub store_id: String,
    pub total_objects_painted: usize,
    pub total_cells_written: usize,
    pub details: Vec<PaintResult>,
}

/// One spatial-index key that a query read.
#[derive(Debug)]
pub struct CellQuery {
    pub precision: Option<u8>,
    pub cell: String,
    pub direction: Option<String>,
    pub refs: usize,
}

/// Counters reported with a device check-in.
#[derive(Debug)]
pub struct DebugInfo {
    pub unique_objects_found: usize,
    pub duplicates_eliminated: usize,
    pub cells_queried: usize,
}

/// Answer to a health request.
#[derive(Debug)]
pub struct HealthResponse {
    pub status: String,
    pub service: String,
    pub version: String,
    pub architecture: ArchitectureInfo,
    pub key_schema: KeySchemaInfo,
    pub endpoints: Vec<&'static str>,
}

/// How the service is built.
#[derive(Debug)]
pub struct ArchitectureInfo {
    pub compute: String,
    pub storage: String,
    pub spatial_index: String,
    pub event_detection: String,
}

/// The key schema of the store.
#[derive(Debug)]
pub struct KeySchemaInfo {
    pub spatial_index: String,
    pub object_store: String,
    pub device_state: String,
}

/// What is remembered of a device between check-ins.
#[derive(Debug)]
pub struct DeviceState {
    pub device_id: String,
    pub store_id: Option<String>,
    pub department: Option<String>,
    pub last_seen: String,
    pub consecutive_outside: u32,
    pub entered_at: Option<String>,
}

/// An enter, exit or department-change event of a device.
#[derive(Debug)]
pub struct Event {
    pub event_type: String,
    pub store_id: String,
    pub department: Option<String>,
    pub previous_department: Option<String>,
    pub dwell_seconds: Option<i64>,
    pub timestamp: String,
}

/// The venue a checked-in device is in.
#[derive(Debug)]
pub struct CheckinStore {
    pub store_id: String,
    pub name: String,
    pub address: Option<String>,
    pub departments: Vec<CheckinDepartment>,
    pub promos_endpoint: String,
}

/// A department of the venue, with its URL slug.
#[derive(Debug)]
pub struct CheckinDepartment {
    pub name: String,
    pub slug: String,
}

/// The department a device is in, if any.
#[derive(Debug)]
pub struct ZoneInfo {
    pub department: Option<String>,
}

/// An entry of a reading list.
#[derive(Debug)]
pub struct Book {
    pub title: String,
    pub author: String,
    pub call_number: String,
}

/// The headline content for a zone.
#[derive(Debug)]
pub struct HeroPromo {
    pub title: String,
    pub coupon_code: Option<String>,
}

/// An error answer.
#[derive(Debug)]
pub struct ErrorResponse {
    pub error: String,
}

} // verus!
