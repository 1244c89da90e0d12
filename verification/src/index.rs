use vstd::prelude::*;
use vstd::string::StringSliceAdditionalSpecFns;
use crate::geohash::{Direction, compass, is_geohash, neighbor_of, geohash_at, neighbors, find_neighbor, lemma_present_directions, lemma_compass_contains, lemma_geohash_at};
use crate::refs::{object_ref, object_ref_text, spatial_key, spatial_key_text, first_by_name, holds_ref_named, prefix_until, ref_name};
use crate::models::{CellQuery, PaintResult};
use crate::refs::{store_departments_key, store_departments_key_text};
use crate::text::same_text;
use crate::geohash::{cell_size_description, cell_size_text};
use crate::text::{contains_text, take_chars};

verus! {

/// Neighbor cells read around a cell of precision `p`: none at precision 10 and finer
/// (painting already covers the overlap), the four cardinal ones at 9, all eight at 8 and
/// coarser.
pub open spec fn directions_for_precision(p: int) -> Seq<Direction> {
    if p >= 10 {
        Seq::empty()
    } else if p == 9 {
        seq![Direction::North, Direction::East, Direction::South, Direction::West]
    } else {
        compass()
    }
}

/// Which neighbors to read around a cell of the given precision.
pub fn neighbor_directions_for_precision(precision: u8) -> (r: Vec<Direction>)
    ensures
        r@ == directions_for_precision(precision as int),
{
    if precision >= 10 {
        let r: Vec<Direction> = Vec::new();
        assert(r@ =~= directions_for_precision(precision as int));
        r
    } else if precision == 9 {
        let r = vec![Direction::North, Direction::East, Direction::South, Direction::West];
        assert(r@ =~= directions_for_precision(precision as int));
        r
    } else {
        crate::geohash::compass_directions()
    }
}

/// The coarser precisions at which an object painted at precision `p` is written too:
/// 10 also at 9, 9 also at 8, 8 also at 7, 5, 4 and 3, any other at none.
pub open spec fn upward_precisions(p: int) -> Seq<u8> {
    if p == 10 {
        seq![9u8]
    } else if p == 9 {
        seq![8u8]
    } else if p == 8 {
        seq![7u8, 5u8, 4u8, 3u8]
    } else {
        Seq::empty()
    }
}

/// The coarser precisions at which an object painted at `native_precision` is written too.
pub fn upward_paint_precisions(native_precision: u8) -> (r: Vec<u8>)
    ensures
        r@ == upward_precisions(native_precision as int),
{
    let r: Vec<u8> = if native_precision == 10 {
        vec![9]
    } else if native_precision == 9 {
        vec![8]
    } else if native_precision == 8 {
        vec![7, 5, 4, 3]
    } else {
        Vec::new()
    };
    assert(r@ =~= upward_precisions(native_precision as int));
    r
}

/// The distinct prefixes of `k` characters of the cells that have at least `k`
/// characters, in the order in which they first occur.
pub open spec fn distinct_prefixes(cells: Seq<Seq<char>>, k: nat) -> Seq<Seq<char>>
    decreases cells.len(),
{
    if cells.len() == 0 {
        Seq::empty()
    } else {
        let d = distinct_prefixes(cells.drop_last(), k);
        let c = cells.last();
        if c.len() >= k && !d.contains(c.take(k as int)) {
            d.push(c.take(k as int))
        } else {
            d
        }
    }
}

/// The parent cells of precision `k` of the given cells, each once, in first-seen order.
pub fn parent_cells(cells: &Vec<String>, k: u8) -> (r: Vec<String>)
    ensures
        r.deep_view() == distinct_prefixes(cells.deep_view(), k as nat),
{
    let mut out: Vec<String> = Vec::new();
    let mut i: usize = 0;
    proof {
        assert(out.deep_view() =~= Seq::<Seq<char>>::empty());
        assert(cells.deep_view().take(0) =~= Seq::<Seq<char>>::empty());
    }
    while i < cells.len()
        invariant
            i <= cells@.len(),
            out.deep_view() == distinct_prefixes(cells.deep_view().take(i as int), k as nat),
        decreases cells@.len() - i,
    {
        let c = cells[i].as_str();
        let ghost before = cells.deep_view().take(i as int);
        proof {
            assert(cells.deep_view().take(i + 1).drop_last() =~= before);
            assert(cells.deep_view().take(i + 1).last() == c@);
        }
        if c.unicode_len() >= k as usize {
            let parent = take_chars(c, k as usize);
            if !contains_text(&out, parent.as_str()) {
                let ghost prev = out.deep_view();
                out.push(parent);
                assert(out.deep_view() =~= prev.push(c@.take(k as int)));
            }
        }
        i += 1;
    }
    assert(cells.deep_view().take(cells@.len() as int) =~= cells.deep_view());
    out
}

/// The distinct prefixes are exactly the prefixes of the long-enough cells, each once.
pub proof fn lemma_distinct_prefixes(cells: Seq<Seq<char>>, k: nat)
    ensures
        distinct_prefixes(cells, k).no_duplicates(),
        distinct_prefixes(cells, k).len() <= cells.len(),
        forall|h: Seq<char>|
            distinct_prefixes(cells, k).contains(h) <==> exists|j: int|
                0 <= j < cells.len() && cells[j].len() >= k && #[trigger] cells[j].take(k as int) == h,
    decreases cells.len(),
{
    if cells.len() > 0 {
        let init = cells.drop_last();
        lemma_distinct_prefixes(init, k);
        let d = distinct_prefixes(init, k);
        let c = cells.last();
        assert forall|h: Seq<char>|
            distinct_prefixes(cells, k).contains(h) <==> exists|j: int|
                0 <= j < cells.len() && cells[j].len() >= k && #[trigger] cells[j].take(k as int) == h by {
            if exists|j: int| 0 <= j < init.len() && init[j].len() >= k && #[trigger] init[j].take(k as int) == h {
                let j = choose|j: int| 0 <= j < init.len() && init[j].len() >= k && #[trigger] init[j].take(k as int) == h;
                assert(cells[j] == init[j]);
            }
            if exists|j: int| 0 <= j < cells.len() && cells[j].len() >= k && #[trigger] cells[j].take(k as int) == h {
                let j = choose|j: int| 0 <= j < cells.len() && cells[j].len() >= k && #[trigger] cells[j].take(k as int) == h;
                if j < init.len() {
                    assert(init[j] == cells[j]);
                    assert(d.contains(h));
                } else {
                    assert(cells[j] == c);
                }
            }
            if c.len() >= k && !d.contains(c.take(k as int)) {
                let n = d.push(c.take(k as int));
                assert(n[d.len() as int] == c.take(k as int));
                if d.contains(h) {
                    let i = choose|i: int| 0 <= i < d.len() && d[i] == h;
                    assert(n[i] == h);
                }
                if n.contains(h) && h != c.take(k as int) {
                    let i = choose|i: int| 0 <= i < n.len() && n[i] == h;
                    assert(d[i] == h);
                }
                assert(cells[cells.len() - 1] == c);
            } else {
                assert(cells[cells.len() - 1] == c);
            }
        }
        if c.len() >= k && !d.contains(c.take(k as int)) {
            let n = d.push(c.take(k as int));
            assert forall|a: int, b: int| 0 <= a < n.len() && 0 <= b < n.len() && a != b implies n[a] != n[b] by {
                if a < d.len() && b < d.len() {
                } else if a < d.len() {
                    assert(d.contains(n[a]));
                } else {
                    assert(d.contains(n[b]));
                }
            }
        }
    }
}

/// The upward keys for the coarser precisions `ups`, in order: for each precision, the
/// keys of the distinct parent cells at that precision.
pub open spec fn upward_keys_spec(cells: Seq<Seq<char>>, ups: Seq<u8>) -> Seq<Seq<char>>
    decreases ups.len(),
{
    if ups.len() == 0 {
        Seq::empty()
    } else {
        upward_keys_spec(cells, ups.drop_last()) + distinct_prefixes(cells, ups.last() as nat).map_values(
            |h: Seq<char>| spatial_key_text(ups.last() as nat, h),
        )
    }
}

/// What painting an object writes to the spatial index.
pub struct PaintPlan {
    /// `"{type}:{id}"`.
    pub object_ref: String,
    /// The key of each painted cell at the painting precision, in the order of the cells.
    pub native_keys: Vec<String>,
    /// The keys of the parent cells at the coarser precisions.
    pub upward_keys: Vec<String>,
    /// The number of keys written: native and upward together.
    pub cells_painted: usize,
}

/// Plans the painting of an object of type `obj_type` and id `id`, whose footprint
/// covers `cells` (geohashes of `precision` characters): its reference goes into the
/// key of every cell and, for the coarser precisions of `upward_paint_precisions`, into
/// the key of every distinct parent cell.
pub fn plan_paint(obj_type: &str, id: &str, precision: u8, cells: &Vec<String>) -> (plan: PaintPlan)
    requires
        cells@.len() <= usize::MAX / 8,
    ensures
        plan.object_ref@ == object_ref_text(obj_type@, id@),
        plan.native_keys.deep_view() == cells.deep_view().map_values(
            |c: Seq<char>| spatial_key_text(precision as nat, c),
        ),
        plan.upward_keys.deep_view() == upward_keys_spec(
            cells.deep_view(),
            upward_precisions(precision as int),
        ),
        plan.cells_painted == cells@.len() + plan.upward_keys@.len(),
{
    let reference = object_ref(obj_type, id);
    let mut native_keys: Vec<String> = Vec::new();
    let mut i: usize = 0;
    while i < cells.len()
        invariant
            i <= cells@.len(),
            native_keys.deep_view() == cells.deep_view().take(i as int).map_values(
                |c: Seq<char>| spatial_key_text(precision as nat, c),
            ),
        decreases cells@.len() - i,
    {
        let ghost prev = native_keys.deep_view();
        assert(cells.deep_view()[i as int] == cells@[i as int]@);
        native_keys.push(spatial_key(precision, cells[i].as_str()));
        assert(native_keys.deep_view() =~= prev.push(spatial_key_text(precision as nat, cells@[i as int]@)));
        assert(native_keys.deep_view() =~= cells.deep_view().take(i + 1).map_values(
            |c: Seq<char>| spatial_key_text(precision as nat, c),
        ));
        i += 1;
    }
    assert(cells.deep_view().take(cells@.len() as int) =~= cells.deep_view());
    let ups = upward_paint_precisions(precision);
    let mut upward_keys: Vec<String> = Vec::new();
    let mut u: usize = 0;
    proof {
        assert(ups@.take(0) =~= Seq::<u8>::empty());
        assert(upward_keys.deep_view() =~= Seq::<Seq<char>>::empty());
    }
    while u < ups.len()
        invariant
            ups@ == upward_precisions(precision as int),
            u <= ups@.len(),
            cells@.len() <= usize::MAX / 8,
            upward_keys@.len() <= u * cells@.len(),
            upward_keys.deep_view() == upward_keys_spec(cells.deep_view(), ups@.take(u as int)),
        decreases ups@.len() - u,
    {
        let pp = ups[u];
        let parents = parent_cells(cells, pp);
        proof {
            lemma_distinct_prefixes(cells.deep_view(), pp as nat);
            assert(ups@.take(u + 1).drop_last() =~= ups@.take(u as int));
            assert(ups@.take(u + 1).last() == pp);
        }
        let ghost start = upward_keys.deep_view();
        let mut j: usize = 0;
        while j < parents.len()
            invariant
                j <= parents@.len(),
                parents@.len() <= cells@.len(),
                cells@.len() <= usize::MAX / 8,
                u < 4,
                upward_keys@.len() == start.len() + j,
                start.len() <= u * cells@.len(),
                upward_keys.deep_view() == start + parents.deep_view().take(j as int).map_values(
                    |h: Seq<char>| spatial_key_text(pp as nat, h),
                ),
            decreases parents@.len() - j,
        {
            let ghost prev = upward_keys.deep_view();
            assert(parents.deep_view()[j as int] == parents@[j as int]@);
            upward_keys.push(spatial_key(pp, parents[j].as_str()));
            assert(upward_keys.deep_view() =~= prev.push(spatial_key_text(pp as nat, parents@[j as int]@)));
            assert(upward_keys.deep_view() =~= start + parents.deep_view().take(j + 1).map_values(
                |h: Seq<char>| spatial_key_text(pp as nat, h),
            ));
            proof {
                assert(start.len() + j + 1 <= u * cells@.len() + cells@.len()) by (nonlinear_arith)
                    requires
                        start.len() <= u * cells@.len(),
                        j < parents@.len(),
                        parents@.len() <= cells@.len(),
                ;
            }
            j += 1;
        }
        assert(parents.deep_view().take(parents@.len() as int) =~= parents.deep_view());
        proof {
            assert(upward_keys@.len() <= (u + 1) * cells@.len()) by (nonlinear_arith)
                requires
                    upward_keys@.len() == start.len() + parents@.len(),
                    start.len() <= u * cells@.len(),
                    parents@.len() <= cells@.len(),
            ;
        }
        u += 1;
    }
    assert(ups@.take(ups@.len() as int) =~= ups@);
    proof {
        assert(upward_keys@.len() <= 4 * cells@.len()) by (nonlinear_arith)
            requires
                upward_keys@.len() <= ups@.len() * cells@.len(),
                ups@.len() <= 4,
        ;
    }
    let cells_painted = cells.len() + upward_keys.len();
    PaintPlan { object_ref: reference, native_keys, upward_keys, cells_painted }
}


/// One read of the spatial index: a cell, the precision whose key is read, and the
/// direction in which the cell lies from the queried one (`None` for the queried cell).
pub struct CellReadSpec {
    pub precision: nat,
    pub cell: Seq<char>,
    pub direction: Option<Direction>,
}

/// One planned read of the spatial index.
#[derive(Debug)]
pub struct CellRead {
    pub precision: u8,
    pub cell: String,
    pub direction: Option<Direction>,
    /// `spatial:{precision}:{cell}`.
    pub key: String,
}

impl CellRead {
    pub open spec fn read_view(self) -> CellReadSpec {
        CellReadSpec { precision: self.precision as nat, cell: self.cell@, direction: self.direction }
    }

    pub open spec fn well_keyed(self) -> bool {
        self.key@ == spatial_key_text(self.precision as nat, self.cell@)
    }
}

/// The views of a list of planned reads.
pub open spec fn read_views(reads: Seq<CellRead>) -> Seq<CellReadSpec> {
    reads.map_values(|r: CellRead| r.read_view())
}

/// The reads of the neighbors of `cell` in the directions `dirs` that the grid has, in order.
pub open spec fn neighbor_reads(cell: Seq<char>, p: nat, dirs: Seq<Direction>) -> Seq<CellReadSpec>
    decreases dirs.len(),
{
    if dirs.len() == 0 {
        Seq::empty()
    } else {
        let rest = neighbor_reads(cell, p, dirs.drop_last());
        let d = dirs.last();
        match neighbor_of(cell, d) {
            Some(n) => rest.push(CellReadSpec { precision: p, cell: first_chars(geohash_at(n, cell.len()), p), direction: Some(d) }),
            None => rest,
        }
    }
}

/// The first `p` characters of `s` (all of them when it is shorter).
pub open spec fn first_chars(s: Seq<char>, p: nat) -> Seq<char> {
    if p <= s.len() {
        s.take(p as int)
    } else {
        s
    }
}

/// The reads for one cell at precision `p`: the cell itself, then (when neighbors are
/// included) its neighbors in the directions that precision calls for.
pub open spec fn level_reads(cell: Seq<char>, p: nat, include_neighbors: bool) -> Seq<CellReadSpec> {
    seq![CellReadSpec { precision: p, cell: cell, direction: None }] + if include_neighbors {
        neighbor_reads(cell, p, directions_for_precision(p as int))
    } else {
        Seq::empty()
    }
}

/// The reads of a point query for the geohash `g` of the point: for every precision `p`
/// from `min` to `max`, the reads around the cell of the first `p` characters of `g`.
pub open spec fn point_reads(g: Seq<char>, min: int, max: int, include_neighbors: bool) -> Seq<CellReadSpec>
    decreases max - min + 1,
{
    if max < min {
        Seq::empty()
    } else {
        point_reads(g, min, max - 1, include_neighbors) + level_reads(g.take(max), max as nat, include_neighbors)
    }
}

/// A geohash prefix is a geohash.
pub proof fn lemma_take_is_geohash(g: Seq<char>, k: int)
    requires
        is_geohash(g),
        0 <= k <= g.len(),
    ensures
        is_geohash(g.take(k)),
{
    assert forall|i: int| 0 <= i < g.take(k).len() implies #[trigger] crate::geohash::base32_value(g.take(k)[i]) is Some by {
        assert(g.take(k)[i] == g[i]);
    }
}

/// Appends the reads for one cell at precision `p` (see `level_reads`).
fn push_level_reads(out: &mut Vec<CellRead>, cell: &str, p: u8, include_neighbors: bool)
    requires
        include_neighbors && p < 10 ==> is_geohash(cell@),
        forall|i: int| 0 <= i < old(out)@.len() ==> #[trigger] old(out)@[i].well_keyed(),
    ensures
        read_views(final(out)@) == read_views(old(out)@) + level_reads(cell@, p as nat, include_neighbors),
        forall|i: int| 0 <= i < final(out)@.len() ==> #[trigger] final(out)@[i].well_keyed(),
{
    let ghost start = read_views(out@);
    let center = crate::text::owned(cell);
    let key = spatial_key(p, cell);
    out.push(CellRead { precision: p, cell: center, direction: None, key });
    proof {
        assert(read_views(out@) =~= start + seq![CellReadSpec { precision: p as nat, cell: cell@, direction: None }]);
    }
    if include_neighbors {
        let dirs = neighbor_directions_for_precision(p);
        let ghost mid = read_views(out@);
        if dirs.len() > 0 {
            assert(p < 10);
            let nbrs = neighbors(cell);
            let mut j: usize = 0;
            proof {
                assert(dirs@.take(0) =~= Seq::<Direction>::empty());
                assert(read_views(out@) =~= mid + neighbor_reads(cell@, p as nat, dirs@.take(0)));
            }
            while j < dirs.len()
                invariant
                    dirs@ == directions_for_precision(p as int),
                    j <= dirs@.len(),
                    p < 10,
                    is_geohash(cell@),
                    nbrs@.len() == crate::geohash::present_directions(cell@, compass()).len(),
                    forall|i: int|
                        #![trigger nbrs@[i]]
                        0 <= i < nbrs@.len() ==> {
                            &&& nbrs@[i].direction == crate::geohash::present_directions(cell@, compass())[i]
                            &&& nbrs@[i].geohash@.len() == cell@.len()
                            &&& is_geohash(nbrs@[i].geohash@)
                            &&& Some(crate::geohash::decode_seq(nbrs@[i].geohash@)) == neighbor_of(cell@, nbrs@[i].direction)
                        },
                    read_views(out@) == mid + neighbor_reads(cell@, p as nat, dirs@.take(j as int)),
                    forall|i: int| 0 <= i < out@.len() ==> #[trigger] out@[i].well_keyed(),
                decreases dirs@.len() - j,
            {
                let d = dirs[j];
                let ghost before = read_views(out@);
                proof {
                    assert(dirs@.take(j + 1).drop_last() =~= dirs@.take(j as int));
                    assert(dirs@.take(j + 1).last() == d);
                    lemma_present_directions(cell@, compass(), d);
                    lemma_compass_contains(d);
                }
                match find_neighbor(&nbrs, d) {
                    Some(h) => {
                        proof {
                            let i = choose|i: int| 0 <= i < nbrs@.len() && nbrs@[i].direction == d && nbrs@[i].geohash == *h;
                            assert(nbrs@[i].direction == d);
                            lemma_geohash_at(h@);
                        }
                        let hc = take_chars(h.as_str(), p as usize);
                        let key = spatial_key(p, hc.as_str());
                        out.push(CellRead { precision: p, cell: hc, direction: Some(d), key });
                        proof {
                            assert(hc@ == first_chars(h@, p as nat));
                            assert(read_views(out@) =~= before.push(CellReadSpec { precision: p as nat, cell: first_chars(h@, p as nat), direction: Some(d) }));
                        }
                    },
                    None => {
                        proof {
                            if neighbor_of(cell@, d) is Some {
                                assert(crate::geohash::present_directions(cell@, compass()).contains(d));
                                let k = choose|k: int| 0 <= k < crate::geohash::present_directions(cell@, compass()).len()
                                    && crate::geohash::present_directions(cell@, compass())[k] == d;
                                assert(nbrs@[k].direction == d);
                            }
                        }
                    },
                }
                j += 1;
            }
            assert(dirs@.take(dirs@.len() as int) =~= dirs@);
        } else {
            assert(neighbor_reads(cell@, p as nat, dirs@) =~= Seq::<CellReadSpec>::empty());
        }
        assert(read_views(out@) =~= start + level_reads(cell@, p as nat, include_neighbors));
    } else {
        assert(read_views(out@) =~= start + level_reads(cell@, p as nat, include_neighbors));
    }
}


/// The reads of a point query: for every precision from `min_precision` to
/// `max_precision`, the cell of the point at that precision and, when asked, the
/// neighbors that precision calls for.  `full_geohash` is the geohash of the point.
pub fn point_read_plan(full_geohash: &str, min_precision: u8, max_precision: u8, include_neighbors: bool) -> (r: Vec<CellRead>)
    requires
        is_geohash(full_geohash@),
        min_precision <= max_precision ==> max_precision <= full_geohash@.len(),
    ensures
        read_views(r@) == point_reads(full_geohash@, min_precision as int, max_precision as int, include_neighbors),
        forall|i: int| 0 <= i < r@.len() ==> #[trigger] r@[i].well_keyed(),
{
    let mut out: Vec<CellRead> = Vec::new();
    let mut q: u16 = min_precision as u16;
    let ghost done = min_precision > max_precision;
    proof {
        assert(read_views(out@) =~= Seq::<CellReadSpec>::empty());
    }
    while q <= max_precision as u16
        invariant
            is_geohash(full_geohash@),
            min_precision <= q,
            q <= max_precision as int + 1 || q == min_precision,
            q <= max_precision ==> q <= full_geohash@.len(),
            min_precision <= max_precision ==> max_precision <= full_geohash@.len(),
            read_views(out@) == point_reads(full_geohash@, min_precision as int, q - 1, include_neighbors),
            forall|i: int| 0 <= i < out@.len() ==> #[trigger] out@[i].well_keyed(),
        decreases max_precision as int + 1 - q,
    {
        let p = q as u8;
        let cell = take_chars(full_geohash, p as usize);
        proof {
            lemma_take_is_geohash(full_geohash@, p as int);
        }
        push_level_reads(&mut out, cell.as_str(), p, include_neighbors);
        q += 1;
    }
    proof {
        if min_precision > max_precision {
            assert(point_reads(full_geohash@, min_precision as int, max_precision as int, include_neighbors) =~= Seq::<CellReadSpec>::empty());
        }
    }
    out
}

/// The reads of an area query on the cell `geohash`: the cell and, when asked, the
/// neighbors its precision calls for.  The precision is the length of `geohash` in bytes
/// (as a `u8`, so modulo 256); each neighbor is read at that precision, as the first
/// characters of its geohash.
pub fn area_read_plan(geohash: &str, include_neighbors: bool) -> (r: (u8, Vec<CellRead>))
    requires
        include_neighbors && geohash.len() % 256 < 10 ==> is_geohash(geohash@),
    ensures
        r.0 == geohash.len() % 256,
        read_views(r.1@) == level_reads(geohash@, r.0 as nat, include_neighbors),
        forall|i: int| 0 <= i < r.1@.len() ==> #[trigger] r.1@[i].well_keyed(),
{
    let precision = (geohash.len() % 256) as u8;
    let mut out: Vec<CellRead> = Vec::new();
    proof {
        assert(read_views(out@) =~= Seq::<CellReadSpec>::empty());
    }
    push_level_reads(&mut out, geohash, precision, include_neighbors);
    proof {
        assert(read_views(out@) =~= level_reads(geohash@, precision as nat, include_neighbors));
    }
    (precision, out)
}


/// The lists of `lists`, one after the other.
pub open spec fn concat_all(lists: Seq<Seq<Seq<char>>>) -> Seq<Seq<char>>
    decreases lists.len(),
{
    if lists.len() == 0 {
        Seq::empty()
    } else {
        concat_all(lists.drop_last()) + lists.last()
    }
}

/// A reported spatial-index read, as values.
pub struct CellQuerySpec {
    pub precision: Option<u8>,
    pub cell: Seq<char>,
    pub direction: Option<Seq<char>>,
    pub refs: nat,
}

impl CellQuery {
    pub open spec fn query_view(self) -> CellQuerySpec {
        CellQuerySpec {
            precision: self.precision,
            cell: self.cell@,
            direction: self.direction.deep_view(),
            refs: self.refs as nat,
        }
    }
}

/// The reads that are reported, given how many references each found: the queried cells
/// always, a neighbor only when it held references.  The precision is reported only
/// when `tag_precision` holds.
pub open spec fn queried_cells(reads: Seq<CellReadSpec>, counts: Seq<nat>, tag_precision: bool) -> Seq<CellQuerySpec>
    decreases reads.len(),
{
    if reads.len() == 0 || counts.len() == 0 {
        Seq::empty()
    } else {
        let rest = queried_cells(reads.drop_last(), counts.drop_last(), tag_precision);
        let r = reads.last();
        let c = counts.last();
        let precision = if tag_precision { Some(r.precision as u8) } else { None };
        match r.direction {
            None => rest.push(CellQuerySpec { precision, cell: r.cell, direction: None, refs: c }),
            Some(d) => if c > 0 {
                rest.push(CellQuerySpec { precision, cell: r.cell, direction: Some(d.spec_name()), refs: c })
            } else {
                rest
            },
        }
    }
}

/// The number of references each read found.
pub open spec fn ref_counts(results: Seq<Seq<Seq<char>>>) -> Seq<nat> {
    results.map_values(|l: Seq<Seq<char>>| l.len())
}

/// What the reads of a query found, taken together.
pub struct ReadSummary {
    /// The first reference found of each object name, in the order of the reads.
    pub unique_refs: Vec<String>,
    /// The number of references found, counting repeats.
    pub total_refs: usize,
    /// The reads reported back to the caller.
    pub cells_queried: Vec<CellQuery>,
}

/// Merges the references found by the planned `reads` (`results[i]` holds what read `i`
/// found): each object once, under the first reference found for it, together with the
/// count of references and the list of reads reported.
pub fn summarize_reads(reads: &Vec<CellRead>, results: &Vec<Vec<String>>, tag_precision: bool) -> (s: ReadSummary)
    requires
        reads@.len() == results@.len(),
        concat_all(results.deep_view()).len() <= usize::MAX,
    ensures
        s.unique_refs.deep_view() == first_by_name(concat_all(results.deep_view())),
        s.total_refs == concat_all(results.deep_view()).len(),
        s.cells_queried@.map_values(|q: CellQuery| q.query_view()) == queried_cells(
            read_views(reads@),
            ref_counts(results.deep_view()),
            tag_precision,
        ),
{
    let mut unique: Vec<String> = Vec::new();
    let mut total: usize = 0;
    let mut queried: Vec<CellQuery> = Vec::new();
    let mut i: usize = 0;
    let ghost all = results.deep_view();
    proof {
        assert(all.take(0) =~= Seq::<Seq<Seq<char>>>::empty());
        assert(unique.deep_view() =~= Seq::<Seq<char>>::empty());
        assert(read_views(reads@).take(0) =~= Seq::<CellReadSpec>::empty());
        assert(ref_counts(all).take(0) =~= Seq::<nat>::empty());
        assert(queried@.map_values(|q: CellQuery| q.query_view()) =~= Seq::<CellQuerySpec>::empty());
    }
    while i < results.len()
        invariant
            all == results.deep_view(),
            reads@.len() == results@.len(),
            concat_all(all).len() <= usize::MAX,
            i <= results@.len(),
            total == concat_all(all.take(i as int)).len(),
            unique.deep_view() == first_by_name(concat_all(all.take(i as int))),
            queried@.map_values(|q: CellQuery| q.query_view()) == queried_cells(
                read_views(reads@).take(i as int),
                ref_counts(all).take(i as int),
                tag_precision,
            ),
        decreases results@.len() - i,
    {
        let list = &results[i];
        let ghost before = concat_all(all.take(i as int));
        proof {
            assert(all.take(i + 1).drop_last() =~= all.take(i as int));
            assert(all[i as int] == list.deep_view());
            assert(all.take(i + 1).last() == all[i as int]);
            lemma_concat_all_prefix(all, i as int);
        }
        let mut j: usize = 0;
        while j < list.len()
            invariant
                all == results.deep_view(),
                list.deep_view() == all[i as int],
                i < all.len(),
                concat_all(all).len() <= usize::MAX,
                before == concat_all(all.take(i as int)),
                before.len() + list@.len() <= concat_all(all).len(),
                j <= list@.len(),
                total == before.len() + j,
                unique.deep_view() == first_by_name(before + list.deep_view().take(j as int)),
            decreases list@.len() - j,
        {
            let r = list[j].as_str();
            let ghost seen = before + list.deep_view().take(j as int);
            proof {
                assert(list.deep_view()[j as int] == r@);
                assert((before + list.deep_view().take(j + 1)).drop_last() =~= seen);
                assert((before + list.deep_view().take(j + 1)).last() == r@);
            }
            let name = ref_name(r);
            if !holds_ref_named(&unique, name.as_str()) {
                let ghost prev = unique.deep_view();
                unique.push(crate::text::owned(r));
                assert(unique.deep_view() =~= prev.push(r@));
            }
            total = total + 1;
            j += 1;
        }
        assert(list.deep_view().take(list@.len() as int) =~= list.deep_view());
        assert(concat_all(all.take(i + 1)) =~= before + list.deep_view());
        let count = list.len();
        let read = &reads[i];
        let ghost qprev = queried@.map_values(|q: CellQuery| q.query_view());
        proof {
            assert(read_views(reads@).take(i + 1).drop_last() =~= read_views(reads@).take(i as int));
            assert(read_views(reads@).take(i + 1).last() == read.read_view());
            assert(ref_counts(all).take(i + 1).drop_last() =~= ref_counts(all).take(i as int));
            assert(ref_counts(all).take(i + 1).last() == count as nat);
        }
        let precision = if tag_precision { Some(read.precision) } else { None };
        match read.direction {
            None => {
                queried.push(CellQuery { precision, cell: crate::text::owned(read.cell.as_str()), direction: None, refs: count });
                assert(queried@.map_values(|q: CellQuery| q.query_view()) =~= qprev.push(
                    CellQuerySpec { precision, cell: read.cell@, direction: None, refs: count as nat }));
            },
            Some(d) => {
                if count > 0 {
                    let dname = crate::text::owned(d.name());
                    queried.push(CellQuery { precision, cell: crate::text::owned(read.cell.as_str()), direction: Some(dname), refs: count });
                    assert(queried@.map_values(|q: CellQuery| q.query_view()) =~= qprev.push(
                        CellQuerySpec { precision, cell: read.cell@, direction: Some(d.spec_name()), refs: count as nat }));
                }
            },
        }
        i += 1;
    }
    assert(all.take(results@.len() as int) =~= all);
    assert(read_views(reads@).take(results@.len() as int) =~= read_views(reads@));
    assert(ref_counts(all).take(results@.len() as int) =~= ref_counts(all));
    ReadSummary { unique_refs: unique, total_refs: total, cells_queried: queried }
}

/// The lists so far take up no more than all of them.
pub proof fn lemma_concat_all_prefix(all: Seq<Seq<Seq<char>>>, i: int)
    requires
        0 <= i < all.len(),
    ensures
        concat_all(all.take(i)).len() + all[i].len() <= concat_all(all).len(),
    decreases all.len(),
{
    if i < all.len() - 1 {
        let init = all.drop_last();
        lemma_concat_all_prefix(init, i);
        assert(init.take(i) =~= all.take(i));
        assert(init[i] == all[i]);
    } else {
        assert(all.drop_last() =~= all.take(i));
    }
}


/// The upward keys hold the key of every distinct parent at every listed precision.
pub proof fn lemma_upward_keys_contain(cells: Seq<Seq<char>>, ups: Seq<u8>, pp: u8, h: Seq<char>)
    requires
        ups.contains(pp),
        distinct_prefixes(cells, pp as nat).contains(h),
    ensures
        upward_keys_spec(cells, ups).contains(spatial_key_text(pp as nat, h)),
    decreases ups.len(),
{
    let init = ups.drop_last();
    let rest = upward_keys_spec(cells, init);
    let last = distinct_prefixes(cells, ups.last() as nat).map_values(
        |x: Seq<char>| spatial_key_text(ups.last() as nat, x),
    );
    assert(upward_keys_spec(cells, ups) == rest + last);
    if ups.last() == pp {
        let i = choose|i: int| 0 <= i < distinct_prefixes(cells, pp as nat).len() && distinct_prefixes(cells, pp as nat)[i] == h;
        assert((rest + last)[rest.len() + i] == spatial_key_text(pp as nat, h));
    } else {
        let k = choose|k: int| 0 <= k < ups.len() && ups[k] == pp;
        assert(init[k] == pp);
        lemma_upward_keys_contain(cells, init, pp, h);
        let i = choose|i: int| 0 <= i < rest.len() && rest[i] == spatial_key_text(pp as nat, h);
        assert((rest + last)[i] == spatial_key_text(pp as nat, h));
    }
}

/// A point query reads the point's own cell at every precision of its range.
pub proof fn lemma_point_reads_center(g: Seq<char>, min: int, max: int, include_neighbors: bool, q: int)
    requires
        min <= q <= max,
    ensures
        point_reads(g, min, max, include_neighbors).contains(
            CellReadSpec { precision: q as nat, cell: g.take(q), direction: None },
        ),
    decreases max - min,
{
    let target = CellReadSpec { precision: q as nat, cell: g.take(q), direction: None };
    let rest = point_reads(g, min, max - 1, include_neighbors);
    let level = level_reads(g.take(max), max as nat, include_neighbors);
    if q == max {
        assert(level[0] == target);
        assert((rest + level)[rest.len() as int] == target);
    } else {
        lemma_point_reads_center(g, min, max - 1, include_neighbors, q);
        let i = choose|i: int| 0 <= i < rest.len() && rest[i] == target;
        assert((rest + level)[i] == target);
    }
}

/// What painting writes is what a point query reads: when the first `p` characters of a
/// point's geohash `g` name a cell painted at precision `p`, a point query over a range
/// of precisions reads, at `p` and at each coarser precision of the upward painting in
/// that range, exactly a key that the painting wrote.
pub proof fn lemma_painted_cell_is_read(cells: Seq<Seq<char>>, p: u8, g: Seq<char>, min: int, max: int, include_neighbors: bool, q: u8)
    requires
        p <= g.len(),
        cells.contains(g.take(p as int)),
        q == p || upward_precisions(p as int).contains(q),
        min <= q <= max,
    ensures
        point_reads(g, min, max, include_neighbors).contains(
            CellReadSpec { precision: q as nat, cell: g.take(q as int), direction: None },
        ),
        q == p ==> cells.map_values(|c: Seq<char>| spatial_key_text(p as nat, c)).contains(
            spatial_key_text(q as nat, g.take(q as int)),
        ),
        q != p ==> upward_keys_spec(cells, upward_precisions(p as int)).contains(
            spatial_key_text(q as nat, g.take(q as int)),
        ),
{
    lemma_point_reads_center(g, min, max, include_neighbors, q as int);
    let j = choose|j: int| 0 <= j < cells.len() && cells[j] == g.take(p as int);
    if q == p {
        let m = cells.map_values(|c: Seq<char>| spatial_key_text(p as nat, c));
        assert(m[j] == spatial_key_text(q as nat, g.take(q as int)));
    } else {
        let k = choose|k: int| 0 <= k < upward_precisions(p as int).len() && upward_precisions(p as int)[k] == q;
        assert(q < p);
        lemma_distinct_prefixes(cells, q as nat);
        assert(cells[j].take(q as int) =~= g.take(q as int));
        lemma_upward_keys_contain(cells, upward_precisions(p as int), q, g.take(q as int));
    }
}

/// One of the four cardinal directions.
pub open spec fn is_cardinal(d: Direction) -> bool {
    d == Direction::North || d == Direction::East || d == Direction::South || d == Direction::West
}

/// The neighbor directions by precision: all eight compass directions at precision 8 and
/// coarser, only the four cardinal ones at 9, none at 10 and finer.
pub proof fn lemma_neighbor_directions(p: int, d: Direction)
    ensures
        p <= 8 ==> directions_for_precision(p).contains(d),
        p <= 8 ==> directions_for_precision(p).len() == 8,
        p == 9 ==> (directions_for_precision(p).contains(d) <==> is_cardinal(d)),
        p == 9 ==> directions_for_precision(p).len() == 4,
        p >= 10 ==> directions_for_precision(p).len() == 0,
{
    if p <= 8 {
        lemma_compass_contains(d);
    }
    if p == 9 {
        let s = directions_for_precision(p);
        if is_cardinal(d) {
            match d {
                Direction::North => assert(s[0] == d),
                Direction::East => assert(s[1] == d),
                Direction::South => assert(s[2] == d),
                _ => assert(s[3] == d),
            }
        } else if s.contains(d) {
            let k = choose|k: int| 0 <= k < s.len() && s[k] == d;
            assert(k == 0 || k == 1 || k == 2 || k == 3);
        }
    }
}

/// The neighbor reads in directions `dirs` hold a read of the neighbor in every listed
/// direction where the grid has one, and only reads in listed directions.
proof fn lemma_neighbor_reads_contain(cell: Seq<char>, p: nat, dirs: Seq<Direction>, d: Direction)
    ensures
        dirs.contains(d) && neighbor_of(cell, d) is Some ==> neighbor_reads(cell, p, dirs).contains(
            CellReadSpec { precision: p, cell: first_chars(geohash_at(neighbor_of(cell, d).unwrap(), cell.len()), p), direction: Some(d) },
        ),
        forall|r: CellReadSpec| #[trigger] neighbor_reads(cell, p, dirs).contains(r) ==> r.precision == p && (r.direction matches Some(e) && dirs.contains(e)),
    decreases dirs.len(),
{
    if dirs.len() > 0 {
        let init = dirs.drop_last();
        lemma_neighbor_reads_contain(cell, p, init, d);
        let rest = neighbor_reads(cell, p, init);
        let target = CellReadSpec { precision: p, cell: first_chars(geohash_at(neighbor_of(cell, d).unwrap(), cell.len()), p), direction: Some(d) };
        if dirs.contains(d) && neighbor_of(cell, d) is Some {
            if dirs.last() == d {
                assert(neighbor_reads(cell, p, dirs).last() == target);
            } else {
                let k = choose|k: int| 0 <= k < dirs.len() && dirs[k] == d;
                assert(init[k] == d);
                let i = choose|i: int| 0 <= i < rest.len() && rest[i] == target;
                if neighbor_of(cell, dirs.last()) is Some {
                    assert(neighbor_reads(cell, p, dirs)[i] == target);
                } else {
                    assert(neighbor_reads(cell, p, dirs) == rest);
                }
            }
        }
        assert forall|r: CellReadSpec| #[trigger] neighbor_reads(cell, p, dirs).contains(r) implies r.precision == p && (r.direction matches Some(e) && dirs.contains(e)) by {
            let all = neighbor_reads(cell, p, dirs);
            let i = choose|i: int| 0 <= i < all.len() && all[i] == r;
            if i < rest.len() && (neighbor_of(cell, dirs.last()) is None || i < rest.len()) {
                if neighbor_of(cell, dirs.last()) is Some {
                    assert(all[i] == rest[i]);
                }
                assert(rest.contains(r));
                let e = r.direction.unwrap();
                let k = choose|k: int| 0 <= k < init.len() && init[k] == e;
                assert(dirs[k] == e);
            } else {
                assert(r.direction == Some(dirs.last()));
                assert(dirs[dirs.len() - 1] == dirs.last());
            }
        }
    }
}

/// The reads around a cell: at precision 8 and coarser the neighbor in every one of the
/// eight directions that the grid has, at precision 9 the cardinal ones only, and at 10
/// and finer the cell alone.
pub proof fn lemma_level_reads_neighbors(cell: Seq<char>, p: nat, d: Direction)
    ensures
        (p <= 8 || (p == 9 && is_cardinal(d))) && neighbor_of(cell, d) is Some ==> level_reads(cell, p, true).contains(
            CellReadSpec { precision: p, cell: first_chars(geohash_at(neighbor_of(cell, d).unwrap(), cell.len()), p), direction: Some(d) },
        ),
        p == 9 && !is_cardinal(d) ==> forall|r: CellReadSpec| #[trigger] level_reads(cell, p, true).contains(r) ==> r.direction != Some(d),
        p >= 10 ==> level_reads(cell, p, true) == seq![CellReadSpec { precision: p, cell: cell, direction: None }],
        level_reads(cell, p, true)[0] == (CellReadSpec { precision: p, cell: cell, direction: None }),
{
    lemma_neighbor_directions(p as int, d);
    let dirs = directions_for_precision(p as int);
    lemma_neighbor_reads_contain(cell, p, dirs, d);
    let center = seq![CellReadSpec { precision: p, cell: cell, direction: None }];
    let nr = neighbor_reads(cell, p, dirs);
    let all = level_reads(cell, p, true);
    assert(all == center + nr);
    if (p <= 8 || (p == 9 && is_cardinal(d))) && neighbor_of(cell, d) is Some {
        let target = CellReadSpec { precision: p, cell: first_chars(geohash_at(neighbor_of(cell, d).unwrap(), cell.len()), p), direction: Some(d) };
        let i = choose|i: int| 0 <= i < nr.len() && nr[i] == target;
        assert(all[i + 1] == target);
    }
    if p == 9 && !is_cardinal(d) {
        assert forall|r: CellReadSpec| #[trigger] all.contains(r) implies r.direction != Some(d) by {
            let i = choose|i: int| 0 <= i < all.len() && all[i] == r;
            if i > 0 {
                assert(nr[i - 1] == r);
                assert(nr.contains(r));
            }
        }
    }
    if p >= 10 {
        assert(dirs.len() == 0);
        assert(nr =~= Seq::<CellReadSpec>::empty());
        assert(all =~= center);
    }
}

/// With neighbors included, a point query reads, at every precision of its range, the
/// neighbor of the point's cell in each direction that precision calls for (all eight at
/// 8 and coarser, the cardinal ones at 9) wherever the grid has one.
pub proof fn lemma_point_reads_neighbors(g: Seq<char>, min: int, max: int, q: int, d: Direction)
    requires
        0 <= min <= q <= max <= g.len(),
        q <= 8 || (q == 9 && is_cardinal(d)),
        neighbor_of(g.take(q), d) is Some,
    ensures
        point_reads(g, min, max, true).contains(
            CellReadSpec { precision: q as nat, cell: first_chars(geohash_at(neighbor_of(g.take(q), d).unwrap(), q as nat), q as nat), direction: Some(d) },
        ),
    decreases max - min,
{
    let target = CellReadSpec { precision: q as nat, cell: first_chars(geohash_at(neighbor_of(g.take(q), d).unwrap(), q as nat), q as nat), direction: Some(d) };
    let rest = point_reads(g, min, max - 1, true);
    let level = level_reads(g.take(max), max as nat, true);
    assert(point_reads(g, min, max, true) == rest + level);
    if q == max {
        lemma_level_reads_neighbors(g.take(max), max as nat, d);
        assert(g.take(max).len() == q);
        let i = choose|i: int| 0 <= i < level.len() && level[i] == target;
        assert((rest + level)[rest.len() + i] == target);
    } else {
        lemma_point_reads_neighbors(g, min, max - 1, q, d);
        let i = choose|i: int| 0 <= i < rest.len() && rest[i] == target;
        assert((rest + level)[i] == target);
    }
}


/// The object type of a venue.
pub open spec fn store_type() -> Seq<char> {
    seq!['s', 't', 'o', 'r', 'e']
}

/// The object type of a department inside a venue.
pub open spec fn department_type() -> Seq<char> {
    seq!['d', 'e', 'p', 'a', 'r', 't', 'm', 'e', 'n', 't']
}

/// The key of the venue's department list that a newly painted object joins: only a
/// department object with a venue id does.
pub fn department_index_key(obj_type: &str, store_id: Option<&str>) -> (r: Option<String>)
    ensures
        r is Some <==> (obj_type@ == department_type() && store_id is Some),
        r matches Some(k) ==> k@ == store_departments_key_text(store_id.unwrap()@),
{
    proof {
        reveal_strlit("department");
        assert("department"@ =~= department_type());
    }
    if same_text(obj_type, "department") {
        match store_id {
            Some(s) => Some(store_departments_key(s)),
            None => None,
        }
    } else {
        None
    }
}

/// The report of a painting, from its plan, the geohash of the object's centre, the
/// painting precision and the painted cells.
pub fn paint_result(plan: PaintPlan, center_geohash: String, precision: u8, cells: Vec<String>) -> (r: PaintResult)
    ensures
        r.object_ref == plan.object_ref,
        r.center_geohash == center_geohash,
        r.precision == precision,
        r.cell_size@ == cell_size_text(precision as int),
        r.cells_painted == plan.cells_painted,
        r.cells == cells,
{
    PaintResult {
        object_ref: plan.object_ref,
        center_geohash,
        precision,
        cell_size: cell_size_description(precision),
        cells_painted: plan.cells_painted,
        cells,
    }
}

/// The references a point query did not report as objects: the repeats among those it
/// read (none when there are fewer references than objects) and the `skipped` objects
/// that the radius filter dropped before hydration, out of `unique` distinct ones.
pub fn duplicates_eliminated(total_refs: usize, unique: usize, skipped: usize) -> (r: usize)
    requires
        skipped <= unique,
    ensures
        r == (if total_refs >= unique { total_refs - unique } else { 0 }) + skipped,
{
    let repeats = if total_refs >= unique { total_refs - unique } else { 0 };
    repeats + skipped
}

} // verus!
