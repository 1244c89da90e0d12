use vstd::prelude::*;
use crate::refs::{prefix_until, after_first, split_first, lemma_prefix_until_len, lemma_prefix_until_whole};
use crate::text::{chars_of, string_of, owned, push_str, push_char, same_text};
use crate::events::{ZoneObject, ZoneObjectSpec, zone_views};
use crate::index::department_type;
use crate::models::{CheckinDepartment, HeroPromo, HealthResponse, ArchitectureInfo, KeySchemaInfo};

verus! {

/// The pieces of `s` between the occurrences of `c` (one piece when there is none).
pub open spec fn split_all(s: Seq<char>, c: char) -> Seq<Seq<char>>
    decreases s.len(),
{
    match after_first(s, c) {
        None => seq![s],
        Some(rest) => {
            proof {
                lemma_prefix_until_len(s, c);
            }
            seq![prefix_until(s, c)] + split_all(rest, c)
        },
    }
}

/// The query string of a URI: the text after its first `?`, up to the next `?`.
pub open spec fn query_part(uri: Seq<char>) -> Option<Seq<char>> {
    match after_first(uri, '?') {
        None => None,
        Some(rest) => Some(prefix_until(rest, '?')),
    }
}

/// The `key=value` pairs among the pieces, split at their first `=`; pieces without `=`
/// are skipped.
pub open spec fn pairs_of(pieces: Seq<Seq<char>>) -> Seq<(Seq<char>, Seq<char>)>
    decreases pieces.len(),
{
    if pieces.len() == 0 {
        Seq::empty()
    } else {
        let rest = pairs_of(pieces.drop_last());
        let p = pieces.last();
        match after_first(p, '=') {
            Some(v) => rest.push((prefix_until(p, '='), v)),
            None => rest,
        }
    }
}

/// The parameters of the query string of `uri`, in order.
pub open spec fn query_pairs(uri: Seq<char>) -> Seq<(Seq<char>, Seq<char>)> {
    match query_part(uri) {
        None => Seq::empty(),
        Some(q) => pairs_of(split_all(q, '&')),
    }
}

/// The value of the last parameter named `key`.
pub open spec fn param_value(pairs: Seq<(Seq<char>, Seq<char>)>, key: Seq<char>) -> Option<Seq<char>>
    decreases pairs.len(),
{
    if pairs.len() == 0 {
        None
    } else if pairs.last().0 == key {
        Some(pairs.last().1)
    } else {
        param_value(pairs.drop_last(), key)
    }
}

pub open spec fn pair_views(pairs: Seq<(String, String)>) -> Seq<(Seq<char>, Seq<char>)> {
    pairs.map_values(|p: (String, String)| (p.0@, p.1@))
}

/// Splits the characters `s` at every `c`.
fn split_all_chars(s: &Vec<char>, c: char) -> (r: Vec<Vec<char>>)
    ensures
        r@.map_values(|p: Vec<char>| p@) == split_all(s@, c),
{
    let mut out: Vec<Vec<char>> = Vec::new();
    let mut rem: Vec<char> = s.clone();
    proof {
        assert(rem@ == s@);
        assert(out@.map_values(|p: Vec<char>| p@) + split_all(rem@, c) =~= split_all(s@, c));
    }
    loop
        invariant
            out@.map_values(|p: Vec<char>| p@) + split_all(rem@, c) == split_all(s@, c),
        decreases rem@.len(),
    {
        let (head, tail) = split_first(&rem, c);
        let ghost prev = out@.map_values(|p: Vec<char>| p@);
        let ghost old_rem = rem@;
        out.push(head);
        assert(out@.map_values(|p: Vec<char>| p@) =~= prev + seq![head@]);
        match tail {
            None => {
                proof {
                    lemma_prefix_until_whole(old_rem, c);
                }
                assert(split_all(old_rem, c) == seq![head@]);
                assert(out@.map_values(|p: Vec<char>| p@) =~= split_all(s@, c));
                return out;
            },
            Some(t) => {
                proof {
                    lemma_prefix_until_len(old_rem, c);
                    assert(split_all(old_rem, c) == seq![head@] + split_all(t@, c));
                    assert(prev + seq![head@] + split_all(t@, c) =~= prev + split_all(old_rem, c));
                }
                rem = t;
            },
        }
    }
}

/// The parameters of the query string of a URI, as `(key, value)` pairs in order.
pub fn parse_query_string(uri: &str) -> (r: Vec<(String, String)>)
    ensures
        pair_views(r@) == query_pairs(uri@),
{
    let mut out: Vec<(String, String)> = Vec::new();
    let u = chars_of(uri);
    let (_, after) = split_first(&u, '?');
    let rest = match after {
        None => {
            assert(pair_views(out@) =~= Seq::<(Seq<char>, Seq<char>)>::empty());
            return out;
        },
        Some(r) => r,
    };
    let (q, _) = split_first(&rest, '?');
    let pieces = split_all_chars(&q, '&');
    let ghost pv = pieces@.map_values(|p: Vec<char>| p@);
    let mut i: usize = 0;
    proof {
        assert(pv.take(0) =~= Seq::<Seq<char>>::empty());
        assert(pair_views(out@) =~= Seq::<(Seq<char>, Seq<char>)>::empty());
    }
    while i < pieces.len()
        invariant
            pv == pieces@.map_values(|p: Vec<char>| p@),
            i <= pieces@.len(),
            pair_views(out@) == pairs_of(pv.take(i as int)),
        decreases pieces@.len() - i,
    {
        let (k, v) = split_first(&pieces[i], '=');
        proof {
            assert(pv.take(i + 1).drop_last() =~= pv.take(i as int));
            assert(pv.take(i + 1).last() == pieces@[i as int]@);
        }
        match v {
            Some(v) => {
                let ghost prev = pair_views(out@);
                out.push((string_of(&k), string_of(&v)));
                assert(pair_views(out@) =~= prev.push((k@, v@)));
            },
            None => {},
        }
        i += 1;
    }
    assert(pv.take(pieces@.len() as int) =~= pv);
    out
}

/// The value of the last query parameter named `key`.
pub fn query_param(pairs: &Vec<(String, String)>, key: &str) -> (r: Option<String>)
    ensures
        r.deep_view() == param_value(pair_views(pairs@), key@),
{
    let mut i = pairs.len();
    assert(pair_views(pairs@).take(i as int) =~= pair_views(pairs@));
    while i > 0
        invariant
            i <= pairs@.len(),
            param_value(pair_views(pairs@).take(i as int), key@) == param_value(pair_views(pairs@), key@),
        decreases i,
    {
        let ghost pre = pair_views(pairs@).take(i as int);
        assert(pre.last() == (pairs@[i - 1].0@, pairs@[i - 1].1@));
        assert(pre.drop_last() =~= pair_views(pairs@).take(i - 1));
        if same_text(pairs[i - 1].0.as_str(), key) {
            return Some(owned(pairs[i - 1].1.as_str()));
        }
        i -= 1;
    }
    None
}


/// What `str::to_lowercase` makes of a text (Unicode lowercase mapping).
pub uninterp spec fn lowercase(s: Seq<char>) -> Seq<char>;

/// `str::to_lowercase`: claims only that the result is the named function of the text.
#[verifier::external_body]
fn to_lowercase(s: &str) -> (r: String)
    ensures
        r@ == lowercase(s@),
{
    s.to_lowercase()
}

/// The URL slug of a name: lowercased, with every space made a `-`.
pub open spec fn slug_text(name: Seq<char>) -> Seq<char> {
    lowercase(name).map_values(|c: char| if c == ' ' { '-' } else { c })
}

/// The URL slug of a department name.
pub fn slug(name: &str) -> (r: String)
    ensures
        r@ == slug_text(name@),
{
    let lower = chars_of(to_lowercase(name).as_str());
    let mut out: Vec<char> = Vec::new();
    let mut i: usize = 0;
    while i < lower.len()
        invariant
            lower@ == lowercase(name@),
            i <= lower@.len(),
            out@ == lower@.take(i as int).map_values(|c: char| if c == ' ' { '-' } else { c }),
        decreases lower@.len() - i,
    {
        let c = lower[i];
        out.push(if c == ' ' { '-' } else { c });
        assert(out@ =~= lower@.take(i + 1).map_values(|c: char| if c == ' ' { '-' } else { c }));
        i += 1;
    }
    assert(lower@.take(lower@.len() as int) =~= lower@);
    string_of(&out)
}

/// `needle` occurs in `hay` (the empty text occurs everywhere).
pub open spec fn has_substring(hay: Seq<char>, needle: Seq<char>) -> bool {
    exists|i: int| 0 <= i && i + needle.len() <= hay.len() && #[trigger] hay.subrange(i, i + needle.len()) == needle
}

/// Whether `needle` occurs in `hay`.
fn contains_chars(hay: &Vec<char>, needle: &Vec<char>) -> (r: bool)
    ensures
        r == has_substring(hay@, needle@),
{
    if needle.len() > hay.len() {
        return false;
    }
    let last = hay.len() - needle.len();
    let mut i: usize = 0;
    loop
        invariant
            last == hay@.len() - needle@.len(),
            needle@.len() <= hay@.len() <= usize::MAX,
            i <= last,
            forall|k: int| 0 <= k < i ==> #[trigger] hay@.subrange(k, k + needle@.len()) != needle@,
        decreases last - i,
    {
        let mut j: usize = 0;
        let mut same = true;
        while j < needle.len()
            invariant
                i <= last,
                last == hay@.len() - needle@.len(),
                needle@.len() <= hay@.len() <= usize::MAX,
                j <= needle@.len(),
                same == (forall|m: int| 0 <= m < j ==> hay@[i + m] == needle@[m]),
            decreases needle@.len() - j,
        {
            if hay[i + j] != needle[j] {
                same = false;
            }
            j += 1;
        }
        if same {
            assert(hay@.subrange(i as int, i + needle@.len()) =~= needle@);
            return true;
        }
        assert(hay@.subrange(i as int, i + needle@.len()) != needle@) by {
            let m = choose|m: int| 0 <= m < needle@.len() && hay@[i + m] != needle@[m];
            assert(hay@.subrange(i as int, i + needle@.len())[m] == hay@[i + m]);
        }
        if i == last {
            return false;
        }
        i += 1;
    }
}

/// Whether a department name matches a search: its lowercase form contains the
/// lowercase form of the query.
pub fn name_matches_query(name: &str, query: &str) -> (r: bool)
    ensures
        r == has_substring(lowercase(name@), lowercase(query@)),
{
    let n = chars_of(to_lowercase(name).as_str());
    let q = chars_of(to_lowercase(query).as_str());
    contains_chars(&n, &q)
}

/// The name shown for a department object: its department tag, else its id.
pub open spec fn department_label(o: ZoneObjectSpec) -> Seq<char> {
    match o.department {
        Some(d) => d,
        None => o.id,
    }
}

/// Name and slug of every department object, in order.
pub open spec fn department_entries(objs: Seq<ZoneObjectSpec>) -> Seq<(Seq<char>, Seq<char>)>
    decreases objs.len(),
{
    if objs.len() == 0 {
        Seq::empty()
    } else {
        let rest = department_entries(objs.drop_last());
        let o = objs.last();
        if o.obj_type == department_type() {
            rest.push((department_label(o), slug_text(department_label(o))))
        } else {
            rest
        }
    }
}

/// The departments of a check-in: every department object found, with its name (its
/// department tag, else its id) and the slug of that name.
pub fn checkin_departments(objs: &Vec<ZoneObject>) -> (r: Vec<CheckinDepartment>)
    ensures
        r@.map_values(|d: CheckinDepartment| (d.name@, d.slug@)) == department_entries(zone_views(objs@)),
{
    let mut out: Vec<CheckinDepartment> = Vec::new();
    let mut i: usize = 0;
    let ghost zv = zone_views(objs@);
    proof {
        reveal_strlit("department");
        assert("department"@ =~= department_type());
        assert(zv.take(0) =~= Seq::<ZoneObjectSpec>::empty());
        assert(out@.map_values(|d: CheckinDepartment| (d.name@, d.slug@)) =~= Seq::<(Seq<char>, Seq<char>)>::empty());
    }
    while i < objs.len()
        invariant
            zv == zone_views(objs@),
            "department"@ == department_type(),
            i <= objs@.len(),
            out@.map_values(|d: CheckinDepartment| (d.name@, d.slug@)) == department_entries(zv.take(i as int)),
        decreases objs@.len() - i,
    {
        let o = &objs[i];
        proof {
            assert(zv.take(i + 1).drop_last() =~= zv.take(i as int));
            assert(zv.take(i + 1).last() == o.zone_view());
        }
        if same_text(o.obj_type.as_str(), "department") {
            let label: &str = match &o.department {
                Some(d) => d.as_str(),
                None => o.id.as_str(),
            };
            let ghost prev = out@.map_values(|d: CheckinDepartment| (d.name@, d.slug@));
            out.push(CheckinDepartment { name: owned(label), slug: slug(label) });
            assert(out@.map_values(|d: CheckinDepartment| (d.name@, d.slug@)) =~= prev.push((label@, slug_text(label@))));
        }
        i += 1;
    }
    assert(zv.take(objs@.len() as int) =~= zv);
    out
}

/// The department tag of the first department object, if that object has one.
pub open spec fn zone_of(objs: Seq<ZoneObjectSpec>) -> Option<Seq<char>>
    decreases objs.len(),
{
    if objs.len() == 0 {
        None
    } else if objs[0].obj_type == department_type() {
        objs[0].department
    } else {
        zone_of(objs.drop_first())
    }
}

/// The name and slug listed for a department object: its tag (else its id) and the slug
/// of that.
pub open spec fn listed_department(o: ZoneObjectSpec) -> (Seq<char>, Seq<char>) {
    let name = match o.department {
        Some(t) => t,
        None => o.id,
    };
    (name, slug_text(name))
}

/// The check-in department list is made of exactly the objects whose type is
/// `department`, one entry each, in their order; objects of any other type give none.
pub proof fn lemma_checkin_lists_department_objects(objs: Seq<ZoneObjectSpec>)
    ensures
        department_entries(objs) == objs.filter(|o: ZoneObjectSpec| o.obj_type == "department"@).map_values(
            |o: ZoneObjectSpec| listed_department(o),
        ),
    decreases objs.len(),
{
    reveal_strlit("department");
    assert("department"@ =~= department_type());
    let pred = |o: ZoneObjectSpec| o.obj_type == "department"@;
    if objs.len() == 0 {
        assert(objs.filter(pred) =~= Seq::<ZoneObjectSpec>::empty());
        assert(objs.filter(pred).map_values(|o: ZoneObjectSpec| listed_department(o)) =~= Seq::<(Seq<char>, Seq<char>)>::empty());
    } else {
        let init = objs.drop_last();
        lemma_checkin_lists_department_objects(init);
        assert(objs =~= init.push(objs.last()));
        init.lemma_filter_push(objs.last(), pred);
        let fi = init.filter(pred);
        if pred(objs.last()) {
            assert(fi.push(objs.last()).map_values(|o: ZoneObjectSpec| listed_department(o)) =~= fi.map_values(
                |o: ZoneObjectSpec| listed_department(o),
            ).push(listed_department(objs.last())));
        }
    }
}

/// The zone is the department tag of the first object whose type is `department`;
/// objects of other types before it are skipped, and without any such object there is no
/// zone.
pub proof fn lemma_zone_is_first_department(objs: Seq<ZoneObjectSpec>, i: int)
    ensures
        0 <= i < objs.len() && objs[i].obj_type == "department"@ && (forall|j: int|
            0 <= j < i ==> #[trigger] objs[j].obj_type != "department"@) ==> zone_of(objs) == objs[i].department,
        (forall|j: int| 0 <= j < objs.len() ==> #[trigger] objs[j].obj_type != "department"@) ==> zone_of(objs) is None,
    decreases objs.len(),
{
    reveal_strlit("department");
    assert("department"@ =~= department_type());
    if objs.len() > 0 {
        let rest = objs.drop_first();
        lemma_zone_is_first_department(rest, i - 1);
        if 0 <= i < objs.len() && objs[i].obj_type == "department"@ && (forall|j: int|
            0 <= j < i ==> #[trigger] objs[j].obj_type != "department"@) {
            if i > 0 {
                assert(objs[0].obj_type != "department"@);
                assert(rest[i - 1] == objs[i]);
                assert forall|j: int| 0 <= j < i - 1 implies #[trigger] rest[j].obj_type != "department"@ by {
                    assert(rest[j] == objs[j + 1]);
                }
            }
        }
        if forall|j: int| 0 <= j < objs.len() ==> #[trigger] objs[j].obj_type != "department"@ {
            assert(objs[0].obj_type != "department"@);
            assert forall|j: int| 0 <= j < rest.len() implies #[trigger] rest[j].obj_type != "department"@ by {
                assert(rest[j] == objs[j + 1]);
            }
        }
    }
}

/// The zone a device is in: the department tag of the first department object found.
pub fn current_zone(objs: &Vec<ZoneObject>) -> (r: Option<String>)
    ensures
        r.deep_view() == zone_of(zone_views(objs@)),
{
    let mut i: usize = 0;
    proof {
        assert(zone_views(objs@).skip(0) =~= zone_views(objs@));
        reveal_strlit("department");
        assert("department"@ =~= department_type());
    }
    while i < objs.len()
        invariant
            i <= objs@.len(),
            "department"@ == department_type(),
            zone_of(zone_views(objs@).skip(i as int)) == zone_of(zone_views(objs@)),
        decreases objs@.len() - i,
    {
        let ghost rest = zone_views(objs@).skip(i as int);
        assert(rest[0] == objs@[i as int].zone_view());
        assert(rest.drop_first() =~= zone_views(objs@).skip(i + 1));
        if same_text(objs[i].obj_type.as_str(), "department") {
            return match &objs[i].department {
                Some(d) => Some(owned(d.as_str())),
                None => None,
            };
        }
        i += 1;
    }
    proof {
        assert(zone_views(objs@).skip(i as int).len() == 0);
    }
    None
}

/// `/api/v1/stores/{store_id}/context`, where a venue's contextual content is served.
pub fn promos_endpoint(store_id: &str) -> (r: String)
    ensures
        r@ == "/api/v1/stores/"@ + store_id@ + "/context"@,
{
    let mut r = String::new();
    push_str(&mut r, "/api/v1/stores/");
    push_str(&mut r, store_id);
    push_str(&mut r, "/context");
    assert(r@ =~= "/api/v1/stores/"@ + store_id@ + "/context"@);
    r
}

/// `Store {store_id} not found`.
pub fn store_not_found(store_id: &str) -> (r: String)
    ensures
        r@ == "Store "@ + store_id@ + " not found"@,
{
    let mut r = String::new();
    push_str(&mut r, "Store ");
    push_str(&mut r, store_id);
    push_str(&mut r, " not found");
    assert(r@ =~= "Store "@ + store_id@ + " not found"@);
    r
}

/// The name shown for an object: its `name`, else its department tag, else its id.
pub fn display_name(name: Option<&str>, department: Option<&str>, id: &str) -> (r: String)
    ensures
        r@ == match name {
            Some(n) => n@,
            None => match department {
                Some(d) => d@,
                None => id@,
            },
        },
{
    match name {
        Some(n) => owned(n),
        None => match department {
            Some(d) => owned(d),
            None => owned(id),
        },
    }
}

/// The headline for a zone: set texts for `children`, `reference`, `fiction`,
/// `periodicals` and `computers`, a welcome to the section for any other zone.
pub open spec fn hero_spec(dept: Seq<char>) -> (Seq<char>, Option<Seq<char>>) {
    if dept == "children"@ {
        ("Storytime today at 3:00pm — all ages welcome"@, Some("EVT-STORYTIME"@))
    } else if dept == "reference"@ {
        ("Librarian on duty — ask for research help"@, None)
    } else if dept == "fiction"@ {
        ("New arrivals: this week's bestsellers are in"@, Some("NEW-ARRIVALS"@))
    } else if dept == "periodicals"@ {
        ("Today's papers and magazines have arrived"@, None)
    } else if dept == "computers"@ {
        ("Free Wi-Fi — computers reservable in 1-hour blocks"@, None)
    } else {
        ("Welcome to the "@ + dept + " section"@, None)
    }
}

/// The headline content for the zone `dept`.
pub fn hero_for_department(dept: &str) -> (r: HeroPromo)
    ensures
        (r.title@, r.coupon_code.deep_view()) == hero_spec(dept@),
{
    if same_text(dept, "children") {
        HeroPromo { title: owned("Storytime today at 3:00pm — all ages welcome"), coupon_code: Some(owned("EVT-STORYTIME")) }
    } else if same_text(dept, "reference") {
        HeroPromo { title: owned("Librarian on duty — ask for research help"), coupon_code: None }
    } else if same_text(dept, "fiction") {
        HeroPromo { title: owned("New arrivals: this week's bestsellers are in"), coupon_code: Some(owned("NEW-ARRIVALS")) }
    } else if same_text(dept, "periodicals") {
        HeroPromo { title: owned("Today's papers and magazines have arrived"), coupon_code: None }
    } else if same_text(dept, "computers") {
        HeroPromo { title: owned("Free Wi-Fi — computers reservable in 1-hour blocks"), coupon_code: None }
    } else {
        let mut t = String::new();
        push_str(&mut t, "Welcome to the ");
        push_str(&mut t, dept);
        push_str(&mut t, " section");
        assert(t@ =~= "Welcome to the "@ + dept@ + " section"@);
        HeroPromo { title: t, coupon_code: None }
    }
}

/// The id of a department object of a venue: `{store_id}-{name}`.
pub fn department_object_id(store_id: &str, name: &str) -> (r: String)
    ensures
        r@ == store_id@ + seq!['-'] + name@,
{
    let mut r = String::new();
    push_str(&mut r, store_id);
    push_char(&mut r, '-');
    push_str(&mut r, name);
    assert(r@ =~= store_id@ + seq!['-'] + name@);
    r
}

/// The name of a venue: the given one, else `Store #{store_id}`.
pub fn store_display_name(store_id: &str, name: Option<&str>) -> (r: String)
    ensures
        r@ == match name {
            Some(n) => n@,
            None => "Store #"@ + store_id@,
        },
{
    match name {
        Some(n) => owned(n),
        None => {
            let mut r = String::new();
            push_str(&mut r, "Store #");
            push_str(&mut r, store_id);
            assert(r@ =~= "Store #"@ + store_id@);
            r
        },
    }
}

/// The precisions of a raw point query at `precision`: up to `max(precision, 3)`, from
/// `precision` (venues are painted no coarser than precision 3).
pub fn point_query_range(precision: u8) -> (r: (u8, u8))
    ensures
        r.0 == if precision >= 3 { precision } else { 3 },
        r.1 == precision,
{
    (if precision >= 3 { precision } else { 3 }, precision)
}

/// The health report of the service.
pub fn health_response() -> (r: HealthResponse)
    ensures
        r.status@ == "ok"@,
        r.service@ == "spin-geospatial-demo"@,
        r.version@ == "0.1.0"@,
        r.architecture.compute@ == "Fermyon Spin (Akamai Functions)"@,
        r.architecture.storage@ == "Spin KV (key-value store, upward write amplification for prefix-free queries)"@,
        r.architecture.spatial_index@ == "Geohash with cell painting + Spin KV direct reads + upward amplification"@,
        r.architecture.event_detection@ == "Stateful enter/exit/dwell with 3-ping hysteresis"@,
        r.key_schema.spatial_index@ == "spatial:{precision}:{geohash} → JSON array of object refs"@,
        r.key_schema.object_store@ == "obj:{type}:{id} → JSON SpatialObject"@,
        r.key_schema.device_state@ == "dev:{device_id} → JSON DeviceState"@,
        r.endpoints@.len() == 10,
        r.endpoints@[0]@ == "POST /ingest/object              — Paint any object across geohash cells"@,
        r.endpoints@[1]@ == "POST /ingest/store               — Ingest store + departments"@,
        r.endpoints@[2]@ == "POST /ingest/location            — Device check-in → context + events"@,
        r.endpoints@[3]@ == "GET  /query/point/:lat/:lon(/:p) — Raw spatial query"@,
        r.endpoints@[4]@ == "GET  /query/area/:geohash        — Area query"@,
        r.endpoints@[5]@ == "GET  /query/store/:storeId       — Store lookup"@,
        r.endpoints@[6]@ == "GET  /api/v1/checkin             — In-store mode trigger"@,
        r.endpoints@[7]@ == "GET  /api/v1/stores/:id/find     — Wayfinding search"@,
        r.endpoints@[8]@ == "GET  /api/v1/stores/:id/position — Blue dot positioning"@,
        r.endpoints@[9]@ == "GET  /api/v1/stores/:id/context  — Contextual content"@,
{
    HealthResponse {
        status: owned("ok"),
        service: owned("spin-geospatial-demo"),
        version: owned("0.1.0"),
        architecture: ArchitectureInfo {
            compute: owned("Fermyon Spin (Akamai Functions)"),
            storage: owned("Spin KV (key-value store, upward write amplification for prefix-free queries)"),
            spatial_index: owned("Geohash with cell painting + Spin KV direct reads + upward amplification"),
            event_detection: owned("Stateful enter/exit/dwell with 3-ping hysteresis"),
        },
        key_schema: KeySchemaInfo {
            spatial_index: owned("spatial:{precision}:{geohash} → JSON array of object refs"),
            object_store: owned("obj:{type}:{id} → JSON SpatialObject"),
            device_state: owned("dev:{device_id} → JSON DeviceState"),
        },
        endpoints: vec![
            "POST /ingest/object              — Paint any object across geohash cells",
            "POST /ingest/store               — Ingest store + departments",
            "POST /ingest/location            — Device check-in → context + events",
            "GET  /query/point/:lat/:lon(/:p) — Raw spatial query",
            "GET  /query/area/:geohash        — Area query",
            "GET  /query/store/:storeId       — Store lookup",
            "GET  /api/v1/checkin             — In-store mode trigger",
            "GET  /api/v1/stores/:id/find     — Wayfinding search",
            "GET  /api/v1/stores/:id/position — Blue dot positioning",
            "GET  /api/v1/stores/:id/context  — Contextual content",
        ],
    }
}

} // verus!
