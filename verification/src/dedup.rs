//! Panorama deduplication: collapsing runs of viewpoints that resolved to
//! the same imagery tile.
//!
//! Grouping is by adjacency, not by global identity: a tile identifier that
//! reappears after an interruption starts a new group, so a track that
//! revisits the same street keeps both passes. Within each group the
//! representative with the smallest positional error survives, earliest
//! first on ties. The positional error of a pair is supplied by the caller:
//! the geodesic distance, in millimeters, between the requested coordinate
//! and the service's corrected location, measured with the same geodesy
//! collaborator as the track distances.

use vstd::prelude::*;
use vstd::arithmetic::div_mod::lemma_div_is_ordered;
use vstd::arithmetic::div_mod::lemma_div_multiples_vanish;
use crate::geom::OrientedViewpoint;
use crate::geom::Coordinate;
use crate::sampler::sum_mm;
use crate::sampler::total_distance_mm;

verus! {

/// Whether the imagery service resolved a viewpoint to a usable panorama.
#[derive(Clone, Copy, Debug, PartialEq, Eq, Structural)]
pub enum TileStatus {
    /// The record is good; it takes part in deduplication.
    Usable,
    /// The service failed this viewpoint; the record is dropped.
    Unusable,
}

/// The imagery service's answer for one requested viewpoint.
#[derive(Debug)]
pub struct ImageryMetadata {
    /// Opaque identifier of the captured panorama the viewpoint resolved to.
    pub tile_id: String,
    /// The service's corrected location of that panorama.
    pub location: Coordinate,
    /// Validity of the record.
    pub status: TileStatus,
    /// Capture date, opaque to this crate.
    pub capture_date: String,
}

/// The mathematical view of a metadata record.
pub ghost struct MdView {
    pub tile_id: Seq<char>,
    pub location: Coordinate,
    pub status: TileStatus,
    pub capture_date: Seq<char>,
}

impl View for ImageryMetadata {
    type V = MdView;

    open spec fn view(&self) -> MdView {
        MdView {
            tile_id: self.tile_id@,
            location: self.location,
            status: self.status,
            capture_date: self.capture_date@,
        }
    }
}

impl Clone for ImageryMetadata {
    /// The copy carries the same view.
    fn clone(&self) -> (res: Self)
        ensures
            res@ == self@,
    {
        ImageryMetadata {
            tile_id: self.tile_id.clone(),
            location: self.location,
            status: self.status,
            capture_date: self.capture_date.clone(),
        }
    }
}

/// Why deduplication rejected its input.
#[derive(Clone, Copy, Debug, PartialEq, Eq, Structural)]
pub enum DedupError {
    /// The viewpoint, metadata and error sequences do not share one length.
    LengthMismatch,
}

/// The surviving viewpoints, their metadata and their positional errors, in
/// original relative order.
pub struct DedupOutput {
    pub viewpoints: Vec<OrientedViewpoint>,
    pub metadata: Vec<ImageryMetadata>,
    pub errors_mm: Vec<u64>,
}

/// One viewpoint with its metadata view and caller-computed positional
/// error.
pub ghost struct Triple {
    pub vp: OrientedViewpoint,
    pub md: MdView,
    pub err_mm: u64,
}

/// The views of a metadata vector.
pub open spec fn md_views(s: Seq<ImageryMetadata>) -> Seq<MdView> {
    s.map_values(|m: ImageryMetadata| m@)
}

/// The usable records of the zipped input, in order: pairs whose status is
/// not usable are dropped.
pub open spec fn kept_triples(
    vps: Seq<OrientedViewpoint>,
    mds: Seq<MdView>,
    errs: Seq<u64>,
) -> Seq<Triple>
    decreases vps.len(),
{
    if vps.len() == 0 || mds.len() == 0 || errs.len() == 0 {
        Seq::empty()
    } else {
        let rest = kept_triples(vps.drop_last(), mds.drop_last(), errs.drop_last());
        if mds.last().status is Usable {
            rest + seq![Triple { vp: vps.last(), md: mds.last(), err_mm: errs.last() }]
        } else {
            rest
        }
    }
}

/// How many records of a metadata sequence are usable.
pub open spec fn count_usable(mds: Seq<MdView>) -> int
    decreases mds.len(),
{
    if mds.len() == 0 {
        0
    } else {
        count_usable(mds.drop_last()) + if mds.last().status is Usable {
            1int
        } else {
            0int
        }
    }
}

/// The tail of the grouping walk: with `best` the first-seen minimum-error
/// record of the current adjacency group, the representatives still to be
/// produced from `triples[i..]`. A record with the same tile identifier
/// joins the current group, displacing `best` only when its error is
/// strictly smaller; a different identifier closes the group and opens a
/// new one.
pub open spec fn dedup_from(triples: Seq<Triple>, i: int, best: Triple) -> Seq<Triple>
    decreases triples.len() - i,
{
    if i < 0 || i >= triples.len() {
        seq![best]
    } else if triples[i].md.tile_id == best.md.tile_id {
        dedup_from(
            triples,
            i + 1,
            if triples[i].err_mm < best.err_mm {
                triples[i]
            } else {
                best
            },
        )
    } else {
        seq![best] + dedup_from(triples, i + 1, triples[i])
    }
}

/// The representatives of the adjacency groups of the usable records: one
/// per maximal run of a tile identifier, each the run's first-seen minimum
/// positional error.
pub open spec fn dedup_reps(triples: Seq<Triple>) -> Seq<Triple> {
    if triples.len() == 0 {
        Seq::empty()
    } else {
        dedup_from(triples, 1, triples[0])
    }
}

/// The grouping walk never produces more representatives than it has
/// records left, plus the one in hand.
pub proof fn lemma_dedup_from_len(triples: Seq<Triple>, i: int, best: Triple)
    requires
        0 <= i <= triples.len(),
    ensures
        1 <= dedup_from(triples, i, best).len() <= triples.len() - i + 1,
    decreases triples.len() - i,
{
    if i < triples.len() {
        if triples[i].md.tile_id == best.md.tile_id {
            lemma_dedup_from_len(
                triples,
                i + 1,
                if triples[i].err_mm < best.err_mm {
                    triples[i]
                } else {
                    best
                },
            );
        } else {
            lemma_dedup_from_len(triples, i + 1, triples[i]);
        }
    }
}

/// Every representative the grouping walk produces is either the record in
/// hand or one of the records still to be walked.
pub proof fn lemma_dedup_from_members(triples: Seq<Triple>, i: int, best: Triple)
    requires
        0 <= i <= triples.len(),
    ensures
        forall|k: int|
            0 <= k < dedup_from(triples, i, best).len() ==> (#[trigger] dedup_from(
                triples,
                i,
                best,
            )[k] == best || exists|j: int| i <= j < triples.len() && dedup_from(triples, i, best)[k]
                == triples[j]),
    decreases triples.len() - i,
{
    let w = dedup_from(triples, i, best);
    if i < triples.len() {
        if triples[i].md.tile_id == best.md.tile_id {
            let nb = if triples[i].err_mm < best.err_mm {
                triples[i]
            } else {
                best
            };
            lemma_dedup_from_members(triples, i + 1, nb);
            assert forall|k: int| 0 <= k < w.len() implies (#[trigger] w[k] == best || exists|j: int|
                i <= j < triples.len() && w[k] == triples[j]) by {
                assert(w[k] == dedup_from(triples, i + 1, nb)[k]);
                if w[k] == nb && nb == triples[i] {
                    assert(i <= i < triples.len() && w[k] == triples[i]);
                }
            }
        } else {
            lemma_dedup_from_members(triples, i + 1, triples[i]);
            assert forall|k: int| 0 <= k < w.len() implies (#[trigger] w[k] == best || exists|j: int|
                i <= j < triples.len() && w[k] == triples[j]) by {
                if k > 0 {
                    assert(w[k] == dedup_from(triples, i + 1, triples[i])[k - 1]);
                }
            }
        }
    }
}

/// There are never more kept records than usable records.
pub proof fn lemma_kept_len(vps: Seq<OrientedViewpoint>, mds: Seq<MdView>, errs: Seq<u64>)
    requires
        vps.len() == mds.len() == errs.len(),
    ensures
        kept_triples(vps, mds, errs).len() == count_usable(mds),
    decreases vps.len(),
{
    if vps.len() > 0 {
        lemma_kept_len(vps.drop_last(), mds.drop_last(), errs.drop_last());
    }
}

/// Deduplication never returns more groups than there are usable input
/// records, and at least one group survives when any record is usable.
pub proof fn lemma_dedup_group_count(
    vps: Seq<OrientedViewpoint>,
    mds: Seq<MdView>,
    errs: Seq<u64>,
)
    requires
        vps.len() == mds.len() == errs.len(),
    ensures
        dedup_reps(kept_triples(vps, mds, errs)).len() <= count_usable(mds),
        count_usable(mds) > 0 ==> dedup_reps(kept_triples(vps, mds, errs)).len() >= 1,
{
    let kept = kept_triples(vps, mds, errs);
    lemma_kept_len(vps, mds, errs);
    if kept.len() > 0 {
        lemma_dedup_from_len(kept, 1, kept[0]);
    }
}

/// One step of the filter: extending all three inputs by one pair extends
/// the kept records exactly when the new record is usable.
pub proof fn lemma_kept_take_succ(
    vps: Seq<OrientedViewpoint>,
    mds: Seq<MdView>,
    errs: Seq<u64>,
    i: int,
)
    requires
        vps.len() == mds.len() == errs.len(),
        0 <= i < vps.len(),
    ensures
        kept_triples(vps.take(i + 1), mds.take(i + 1), errs.take(i + 1)) == if mds[i].status
            is Usable {
            kept_triples(vps.take(i), mds.take(i), errs.take(i)) + seq![
                Triple { vp: vps[i], md: mds[i], err_mm: errs[i] },
            ]
        } else {
            kept_triples(vps.take(i), mds.take(i), errs.take(i))
        },
{
    assert(vps.take(i + 1).drop_last() =~= vps.take(i));
    assert(mds.take(i + 1).drop_last() =~= mds.take(i));
    assert(errs.take(i + 1).drop_last() =~= errs.take(i));
}

/// The views of an executable triple vector.
pub open spec fn trip_views(s: Seq<(OrientedViewpoint, ImageryMetadata, u64)>) -> Seq<Triple> {
    s.map_values(
        |t: (OrientedViewpoint, ImageryMetadata, u64)|
            Triple { vp: t.0, md: t.1@, err_mm: t.2 },
    )
}

/// The triples held in the three output columns.
pub open spec fn out_views(
    vs: Seq<OrientedViewpoint>,
    ms: Seq<ImageryMetadata>,
    es: Seq<u64>,
) -> Seq<Triple> {
    Seq::new(vs.len(), |k: int| Triple { vp: vs[k], md: ms[k]@, err_mm: es[k] })
}

/// Collapse each run of consecutive usable records that share a tile
/// identifier to its single best representative: the record whose
/// positional error is smallest, the earliest on ties. Records whose status
/// is not usable are dropped first; order is otherwise kept. Fails exactly
/// when the three inputs do not share one length.
#[verifier::loop_isolation(false)]
pub fn deduplicate(
    viewpoints: &Vec<OrientedViewpoint>,
    metadata: &Vec<ImageryMetadata>,
    errors_mm: &Vec<u64>,
) -> (r: Result<DedupOutput, DedupError>)
    ensures
        r is Err <==> !(viewpoints@.len() == metadata@.len() && metadata@.len()
            == errors_mm@.len()),
        r is Err ==> r->Err_0 == DedupError::LengthMismatch,
        r is Ok ==> ({
            let reps = dedup_reps(kept_triples(viewpoints@, md_views(metadata@), errors_mm@));
            &&& r->Ok_0.viewpoints@ == reps.map_values(|t: Triple| t.vp)
            &&& md_views(r->Ok_0.metadata@) == reps.map_values(|t: Triple| t.md)
            &&& r->Ok_0.errors_mm@ == reps.map_values(|t: Triple| t.err_mm)
            &&& r->Ok_0.viewpoints@.len() == reps.len()
            &&& r->Ok_0.metadata@.len() == reps.len()
            &&& r->Ok_0.errors_mm@.len() == reps.len()
        }),
{
    let n = viewpoints.len();
    if metadata.len() != n || errors_mm.len() != n {
        return Err(DedupError::LengthMismatch);
    }
    let ghost gms = md_views(metadata@);
    let ghost kept = kept_triples(viewpoints@, gms, errors_mm@);

    let mut kept_v: Vec<(OrientedViewpoint, ImageryMetadata, u64)> = Vec::new();
    let mut i: usize = 0;
    while i < n
        invariant
            0 <= i <= n,
            trip_views(kept_v@) =~= kept_triples(
                viewpoints@.take(i as int),
                gms.take(i as int),
                errors_mm@.take(i as int),
            ),
        decreases n - i,
    {
        proof {
            lemma_kept_take_succ(viewpoints@, gms, errors_mm@, i as int);
        }
        if metadata[i].status == TileStatus::Usable {
            let ghost before = kept_v@;
            kept_v.push((viewpoints[i], metadata[i].clone(), errors_mm[i]));
            proof {
                assert(trip_views(kept_v@) =~= trip_views(before) + seq![
                    Triple {
                        vp: viewpoints@[i as int],
                        md: gms[i as int],
                        err_mm: errors_mm@[i as int],
                    },
                ]);
            }
        }
        i = i + 1;
    }
    proof {
        assert(viewpoints@.take(n as int) =~= viewpoints@);
        assert(gms.take(n as int) =~= gms);
        assert(errors_mm@.take(n as int) =~= errors_mm@);
        assert(trip_views(kept_v@) =~= kept);
    }

    let mut out_v: Vec<OrientedViewpoint> = Vec::new();
    let mut out_m: Vec<ImageryMetadata> = Vec::new();
    let mut out_e: Vec<u64> = Vec::new();
    if kept_v.len() == 0 {
        proof {
            assert(out_views(out_v@, out_m@, out_e@) =~= dedup_reps(kept));
            assert(out_v@ =~= dedup_reps(kept).map_values(|t: Triple| t.vp));
            assert(md_views(out_m@) =~= dedup_reps(kept).map_values(|t: Triple| t.md));
            assert(out_e@ =~= dedup_reps(kept).map_values(|t: Triple| t.err_mm));
        }
        return Ok(DedupOutput { viewpoints: out_v, metadata: out_m, errors_mm: out_e });
    }

    let mut best_vp: OrientedViewpoint = kept_v[0].0;
    let mut best_md: ImageryMetadata = kept_v[0].1.clone();
    let mut best_err: u64 = kept_v[0].2;
    let mut i: usize = 1;
    while i < kept_v.len()
        invariant
            1 <= i <= kept_v@.len(),
            out_v@.len() == out_m@.len(),
            out_m@.len() == out_e@.len(),
            out_views(out_v@, out_m@, out_e@) + dedup_from(
                kept,
                i as int,
                Triple { vp: best_vp, md: best_md@, err_mm: best_err },
            ) =~= dedup_reps(kept),
        decreases kept_v@.len() - i,
    {
        let ghost gbest = Triple { vp: best_vp, md: best_md@, err_mm: best_err };
        proof {
            assert(kept[i as int] == trip_views(kept_v@)[i as int]);
        }
        if kept_v[i].1.tile_id == best_md.tile_id {
            if kept_v[i].2 < best_err {
                best_vp = kept_v[i].0;
                best_md = kept_v[i].1.clone();
                best_err = kept_v[i].2;
            }
            proof {
                assert(dedup_from(kept, i as int, gbest) == dedup_from(
                    kept,
                    i as int + 1,
                    Triple { vp: best_vp, md: best_md@, err_mm: best_err },
                ));
            }
        } else {
            let ghost ovs = out_v@;
            let ghost oms = out_m@;
            let ghost oes = out_e@;
            out_v.push(best_vp);
            out_m.push(best_md);
            out_e.push(best_err);
            best_vp = kept_v[i].0;
            best_md = kept_v[i].1.clone();
            best_err = kept_v[i].2;
            proof {
                assert(out_views(out_v@, out_m@, out_e@) =~= out_views(ovs, oms, oes) + seq![
                    gbest,
                ]);
                assert(dedup_from(kept, i as int, gbest) == seq![gbest] + dedup_from(
                    kept,
                    i as int + 1,
                    Triple { vp: best_vp, md: best_md@, err_mm: best_err },
                ));
                assert(out_views(out_v@, out_m@, out_e@) + dedup_from(
                    kept,
                    i as int + 1,
                    Triple { vp: best_vp, md: best_md@, err_mm: best_err },
                ) =~= (out_views(ovs, oms, oes) + seq![gbest]) + dedup_from(
                    kept,
                    i as int + 1,
                    Triple { vp: best_vp, md: best_md@, err_mm: best_err },
                ));
            }
        }
        i = i + 1;
    }
    let ghost gbest = Triple { vp: best_vp, md: best_md@, err_mm: best_err };
    let ghost ovs = out_v@;
    let ghost oms = out_m@;
    let ghost oes = out_e@;
    out_v.push(best_vp);
    out_m.push(best_md);
    out_e.push(best_err);
    proof {
        assert(dedup_from(kept, i as int, gbest) == seq![gbest]);
        assert(out_views(out_v@, out_m@, out_e@) =~= out_views(ovs, oms, oes) + seq![gbest]);
        let reps = dedup_reps(kept);
        assert(out_views(out_v@, out_m@, out_e@) =~= reps);
        assert(out_v@ =~= reps.map_values(|t: Triple| t.vp));
        assert(md_views(out_m@) =~= reps.map_values(|t: Triple| t.md));
        assert(out_e@ =~= reps.map_values(|t: Triple| t.err_mm));
    }
    Ok(DedupOutput { viewpoints: out_v, metadata: out_m, errors_mm: out_e })
}

/// The sum of a distance sequence is at most its length times the largest
/// distance value.
pub proof fn lemma_sum_bound(s: Seq<u64>)
    ensures
        sum_mm(s) <= s.len() * 0xffff_ffff_ffff_ffffu64,
    decreases s.len(),
{
    if s.len() > 0 {
        lemma_sum_bound(s.drop_last());
    }
}

/// The mean positional error of the surviving representatives, in whole
/// millimeters, rounded down; `None` exactly when there are none.
pub fn average_error_mm(errors_mm: &Vec<u64>) -> (r: Option<u64>)
    ensures
        r is Some <==> errors_mm@.len() > 0,
        r is Some ==> r->Some_0 == sum_mm(errors_mm@) / (errors_mm@.len() as int),
{
    if errors_mm.len() == 0 {
        return None;
    }
    let total: u128 = total_distance_mm(errors_mm);
    let len128: u128 = errors_mm.len() as u128;
    let avg: u128 = total / len128;
    proof {
        lemma_sum_bound(errors_mm@);
        lemma_div_is_ordered(
            total as int,
            errors_mm@.len() * 0xffff_ffff_ffff_ffffu64,
            len128 as int,
        );
        lemma_div_multiples_vanish(0xffff_ffff_ffff_ffffu64 as int, len128 as int);
    }
    Some(avg as u64)
}

} // verus!
