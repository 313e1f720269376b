//! The point builder: enumerating stencil samples and deduplicating them.
//!
//! For the requested derivative order the builder walks every force-constant
//! entry, asks [`crate::stencil`] for the entry's sampled stencil, and runs
//! each sampled signature through the registry.  What comes out is the
//! complete plan of one run: the deduplicated targets (whose displacements
//! are the geometries to submit), the signature-to-id map, and one use
//! record per sample saying where in the force-constant buffer the sample's
//! energy lands and with which coefficient.  The zero-displacement signature
//! is never sampled; the reference energy's coefficients are returned
//! separately.

use vstd::prelude::*;

use crate::registry::reg_wf;
use crate::registry::Registry;
use crate::registry::SigEntry;
use crate::stencil::c3;
use crate::stencil::c3_exec;
use crate::stencil::c4;
use crate::stencil::idx4_exec;
use crate::stencil::items2;
use crate::stencil::items3;
use crate::stencil::items4;
use crate::stencil::items_of;
use crate::stencil::lemma_c3_closed;
use crate::stencil::lemma_c3_mono;
use crate::stencil::lemma_c4_closed;
use crate::stencil::lemma_c4_mono;
use crate::stencil::lemma_counts_nonneg;
use crate::stencil::lemma_idx2_bound;
use crate::stencil::plan2_from;
use crate::stencil::plan3_from;
use crate::stencil::plan4_from;
use crate::stencil::refs2_at;
use crate::stencil::refs2_from;
use crate::stencil::refs4_at;
use crate::stencil::refs4_from;
use crate::stencil::stencil2;
use crate::stencil::stencil3;
use crate::stencil::stencil4;
use crate::stencil::Derivative;
use crate::symmetry::canon;
use crate::symmetry::group_wf;
use crate::symmetry::PointGroup;
use crate::MAX_COORDS;

verus! {

/// One sampled stencil point: the energy of target `target` contributes to
/// flat force-constant position `index` with coefficient `coeff`.
#[derive(Clone, Copy, PartialEq, Eq, Structural, Debug)]
pub struct FcUse {
    pub target: usize,
    pub index: usize,
    pub coeff: i64,
}

/// One reference-energy contribution to flat position `index`.
#[derive(Clone, Copy, PartialEq, Eq, Structural, Debug)]
pub struct RefUse {
    pub index: usize,
    pub coeff: i64,
}

/// Everything a point-building pass produces.
pub struct PointPlan {
    /// The registry: targets, in submission order, and the signature map.
    pub registry: Registry,
    /// One record per sampled signature, aligned with the signature map.
    pub uses: Vec<FcUse>,
    /// Where the supplied reference energy contributes.
    pub ref_uses: Vec<RefUse>,
}

/// The (signature, position, coefficient) triples recorded so far, read off
/// the registry's signature map and the parallel use list.
pub open spec fn recorded(sm: Seq<SigEntry>, us: Seq<FcUse>) -> Seq<(Seq<i32>, int, int)> {
    Seq::new(sm.len(), |e: int| (sm[e].sig@, us[e].index as int, us[e].coeff as int))
}

/// Spec view of the reference-use list.
pub open spec fn ref_view(rs: Seq<RefUse>) -> Seq<(int, int)> {
    Seq::new(rs.len(), |e: int| (rs[e].index as int, rs[e].coeff as int))
}

/// Every sampled stencil item of a whole run, in enumeration order: the
/// second-derivative entries, then (for higher orders) the third- and
/// fourth-derivative entries.
pub open spec fn full_plan(n: int, d: Derivative) -> Seq<(Seq<i32>, int, int)> {
    match d {
        Derivative::Harmonic => plan2_from(n, 0, 0),
        Derivative::Cubic => plan2_from(n, 0, 0) + plan3_from(n, 0, 0, 0),
        Derivative::Quartic => plan2_from(n, 0, 0) + plan3_from(n, 0, 0, 0) + plan4_from(
            n,
            0,
            0,
            0,
            0,
        ),
    }
}

/// Every reference-energy coefficient of a whole run, in enumeration order.
/// Third-derivative stencils never touch the reference energy.
pub open spec fn full_refs(n: int, d: Derivative) -> Seq<(int, int)> {
    match d {
        Derivative::Harmonic => refs2_from(n, 0, 0),
        Derivative::Cubic => refs2_from(n, 0, 0),
        Derivative::Quartic => refs2_from(n, 0, 0) + refs4_from(n, 0, 0, 0, 0),
    }
}

/// Length of the flat force-constant buffer for a run.
pub open spec fn fcs_len(n: int, d: Derivative) -> int {
    match d {
        Derivative::Harmonic => n * n,
        Derivative::Cubic => n * n + c3(n),
        Derivative::Quartic => n * n + c3(n) + c4(n),
    }
}

/// A plan is sound: registry well-formed, one use per mapped signature,
/// every use resolving to its signature's target, and every recorded
/// position inside the flat buffer (bounded by `bound`).
pub open spec fn plan_wf(p: PointPlan, bound: int) -> bool {
    &&& reg_wf(p.registry)
    &&& p.uses@.len() == p.registry.sig_map@.len()
    &&& forall|e: int|
        0 <= e < p.uses@.len() ==> (#[trigger] p.uses@[e]).target == p.registry.sig_map@[e].id
    &&& forall|e: int| 0 <= e < p.uses@.len() ==> (#[trigger] p.uses@[e]).index < bound
    &&& forall|e: int| 0 <= e < p.ref_uses@.len() ==> (#[trigger] p.ref_uses@[e]).index < bound
}

/// Appends every second-derivative stencil sample to the plan being built.
fn add_order2(reg: &mut Registry, uses: &mut Vec<FcUse>, refs: &mut Vec<RefUse>, n: usize)
    requires
        reg_wf(*old(reg)),
        old(reg).n == n,
        n <= MAX_COORDS,
        old(uses)@.len() == old(reg).sig_map@.len(),
        forall|e: int|
            0 <= e < old(uses)@.len() ==> (#[trigger] old(uses)@[e]).target == old(reg).sig_map@[e].id,
    ensures
        reg_wf(*final(reg)),
        final(reg).n == n,
        final(reg).pg == old(reg).pg,
        forall|t: int|
            0 <= t < old(reg).targets@.len() ==> #[trigger] final(reg).targets@[t] == old(reg).targets@[t],
        final(uses)@.len() == final(reg).sig_map@.len(),
        forall|e: int|
            0 <= e < final(uses)@.len() ==> (#[trigger] final(uses)@[e]).target == final(reg).sig_map@[e].id,
        recorded(final(reg).sig_map@, final(uses)@) == recorded(old(reg).sig_map@, old(uses)@)
            + plan2_from(n as int, 0, 0),
        ref_view(final(refs)@) == ref_view(old(refs)@) + refs2_from(n as int, 0, 0),
        forall|e: int|
            old(uses)@.len() <= e < final(uses)@.len() ==> (#[trigger] final(uses)@[e]).index < n
                * n,
        forall|e: int|
            old(refs)@.len() <= e < final(refs)@.len() ==> (#[trigger] final(refs)@[e]).index < n
                * n,
{
    let ghost base = recorded(old(reg).sig_map@, old(uses)@);
    let ghost rbase = ref_view(old(refs)@);
    let ghost us0len = old(uses)@.len();
    let ghost rs0len = old(refs)@.len();
    let mut i: usize = 0;
    proof {
        assert(recorded(reg.sig_map@, uses@) + plan2_from(n as int, 0, 0) == base + plan2_from(
            n as int,
            0,
            0,
        ));
    }
    while i < n
        invariant
            i <= n,
            n <= MAX_COORDS,
            reg_wf(*reg),
            reg.n == n,
            reg.pg == old(reg).pg,
            forall|t: int|
                0 <= t < old(reg).targets@.len() ==> #[trigger] reg.targets@[t] == old(reg).targets@[t],
            old(reg).targets@.len() <= reg.targets@.len(),
            uses@.len() == reg.sig_map@.len(),
            us0len <= uses@.len(),
            rs0len <= refs@.len(),
            forall|e: int|
                0 <= e < uses@.len() ==> (#[trigger] uses@[e]).target == reg.sig_map@[e].id,
            forall|e: int| us0len <= e < uses@.len() ==> (#[trigger] uses@[e]).index < n * n,
            forall|e: int| rs0len <= e < refs@.len() ==> (#[trigger] refs@[e]).index < n * n,
            recorded(reg.sig_map@, uses@) + plan2_from(n as int, i as int, i as int) == base
                + plan2_from(n as int, 0, 0),
            ref_view(refs@) + refs2_from(n as int, i as int, i as int) == rbase + refs2_from(
                n as int,
                0,
                0,
            ),
        decreases n - i,
    {
        let mut j: usize = i;
        while j < n
            invariant
                i < n,
                i <= j <= n,
                n <= MAX_COORDS,
                reg_wf(*reg),
                reg.n == n,
                reg.pg == old(reg).pg,
                forall|t: int|
                    0 <= t < old(reg).targets@.len() ==> #[trigger] reg.targets@[t] == old(reg).targets@[t],
                old(reg).targets@.len() <= reg.targets@.len(),
                uses@.len() == reg.sig_map@.len(),
                us0len <= uses@.len(),
                rs0len <= refs@.len(),
                forall|e: int|
                    0 <= e < uses@.len() ==> (#[trigger] uses@[e]).target == reg.sig_map@[e].id,
                forall|e: int| us0len <= e < uses@.len() ==> (#[trigger] uses@[e]).index < n * n,
                forall|e: int| rs0len <= e < refs@.len() ==> (#[trigger] refs@[e]).index < n * n,
                recorded(reg.sig_map@, uses@) + plan2_from(n as int, i as int, j as int) == base
                    + plan2_from(n as int, 0, 0),
                ref_view(refs@) + refs2_from(n as int, i as int, j as int) == rbase + refs2_from(
                    n as int,
                    0,
                    0,
                ),
            decreases n - j,
        {
            let st = stencil2(n, i, j);
            let ghost items = items_of(st@);
            proof {
                assert(plan2_from(n as int, i as int, j as int) == items2(
                    n as int,
                    i as int,
                    j as int,
                ) + plan2_from(n as int, i as int, j as int + 1));
                assert(items.skip(0) =~= items);
            }
            let stlen = st.len();
            let mut p: usize = 0;
            while p < stlen
                invariant
                    p <= stlen,
                    stlen == st@.len(),
                    i <= j < n,
                    n <= MAX_COORDS,
                    reg_wf(*reg),
                    reg.n == n,
                    reg.pg == old(reg).pg,
                    forall|t: int|
                        0 <= t < old(reg).targets@.len() ==> #[trigger] reg.targets@[t] == old(reg).targets@[t],
                    old(reg).targets@.len() <= reg.targets@.len(),
                    items == items_of(st@),
                    items == items2(n as int, i as int, j as int),
                    forall|p2: int| 0 <= p2 < st@.len() ==> (#[trigger] st@[p2]).1 < n * n,
                    forall|p2: int| 0 <= p2 < st@.len() ==> (#[trigger] st@[p2]).0@.len() == n,
                    forall|p2: int|
                        0 <= p2 < st@.len() ==> crate::sig::sig_wf(
                            (#[trigger] st@[p2]).0@,
                            n as nat,
                        ),
                    uses@.len() == reg.sig_map@.len(),
                    us0len <= uses@.len(),
                    rs0len <= refs@.len(),
                    forall|e: int|
                        0 <= e < uses@.len() ==> (#[trigger] uses@[e]).target == reg.sig_map@[e].id,
                    forall|e: int|
                        us0len <= e < uses@.len() ==> (#[trigger] uses@[e]).index < n * n,
                    forall|e: int| rs0len <= e < refs@.len() ==> (#[trigger] refs@[e]).index < n * n,
                    recorded(reg.sig_map@, uses@) + items.skip(p as int) + plan2_from(
                        n as int,
                        i as int,
                        j as int + 1,
                    ) == base + plan2_from(n as int, 0, 0),
                    ref_view(refs@) + refs2_from(n as int, i as int, j as int) == rbase
                        + refs2_from(n as int, 0, 0),
                decreases stlen - p,
            {
                let ghost sm0 = reg.sig_map@;
                let ghost us0 = uses@;
                let id = reg.lookup_or_insert(&st[p].0);
                uses.push(FcUse { target: id, index: st[p].1, coeff: st[p].2 });
                proof {
                    let x = items[p as int];
                    assert(x == (st@[p as int].0@, st@[p as int].1 as int, st@[p as int].2 as int));
                    assert(recorded(reg.sig_map@, uses@) =~= recorded(sm0, us0).push(x));
                    assert(items.skip(p as int) =~= seq![x] + items.skip(p as int + 1));
                    assert(recorded(sm0, us0).push(x) + items.skip(p as int + 1) + plan2_from(
                        n as int,
                        i as int,
                        j as int + 1,
                    ) =~= recorded(sm0, us0) + items.skip(p as int) + plan2_from(
                        n as int,
                        i as int,
                        j as int + 1,
                    ));
                }
                p = p + 1;
            }
            if i == j {
                proof {
                    lemma_idx2_bound(n as int, i as int, j as int);
                    assert(n * n <= MAX_COORDS * MAX_COORDS) by (nonlinear_arith)
                        requires
                            n <= MAX_COORDS,
                    ;
                }
                let ghost rs0 = refs@;
                refs.push(RefUse { index: i * n + j, coeff: -2 });
                proof {
                    let x = (crate::stencil::idx2(n as int, i as int, j as int), -2int);
                    assert(ref_view(refs@) =~= ref_view(rs0).push(x));
                    assert(refs2_at(n as int, i as int, j as int) =~= seq![x]);
                    assert(refs2_from(n as int, i as int, j as int) == refs2_at(
                        n as int,
                        i as int,
                        j as int,
                    ) + refs2_from(n as int, i as int, j as int + 1));
                    assert(ref_view(rs0).push(x) + refs2_from(n as int, i as int, j as int + 1)
                        =~= ref_view(rs0) + refs2_from(n as int, i as int, j as int));
                }
            } else {
                proof {
                    assert(refs2_at(n as int, i as int, j as int) =~= Seq::<(int, int)>::empty());
                    assert(refs2_from(n as int, i as int, j as int) == refs2_at(
                        n as int,
                        i as int,
                        j as int,
                    ) + refs2_from(n as int, i as int, j as int + 1));
                    assert(ref_view(refs@) + refs2_from(n as int, i as int, j as int + 1)
                        =~= ref_view(refs@) + refs2_from(n as int, i as int, j as int));
                }
            }
            proof {
                assert(items.skip(st@.len() as int) =~= Seq::<(Seq<i32>, int, int)>::empty());
                assert(recorded(reg.sig_map@, uses@) + items.skip(st@.len() as int) + plan2_from(
                    n as int,
                    i as int,
                    j as int + 1,
                ) =~= recorded(reg.sig_map@, uses@) + plan2_from(n as int, i as int, j as int + 1));
            }
            j = j + 1;
        }
        proof {
            assert(plan2_from(n as int, i as int, n as int) == plan2_from(
                n as int,
                i as int + 1,
                i as int + 1,
            ));
            assert(refs2_from(n as int, i as int, n as int) == refs2_from(
                n as int,
                i as int + 1,
                i as int + 1,
            ));
        }
        i = i + 1;
    }
    proof {
        assert(plan2_from(n as int, n as int, n as int) =~= Seq::<(Seq<i32>, int, int)>::empty());
        assert(refs2_from(n as int, n as int, n as int) =~= Seq::<(int, int)>::empty());
        assert(recorded(reg.sig_map@, uses@) =~= recorded(reg.sig_map@, uses@) + plan2_from(
            n as int,
            n as int,
            n as int,
        ));
        assert(ref_view(refs@) =~= ref_view(refs@) + refs2_from(n as int, n as int, n as int));
    }
}

/// Appends every third-derivative stencil sample to the plan being built.
/// Third-derivative stencils never touch the reference energy, so the
/// reference-use list is left alone.
fn add_order3(reg: &mut Registry, uses: &mut Vec<FcUse>, n: usize)
    requires
        reg_wf(*old(reg)),
        old(reg).n == n,
        n <= MAX_COORDS,
        old(uses)@.len() == old(reg).sig_map@.len(),
        forall|e: int|
            0 <= e < old(uses)@.len() ==> (#[trigger] old(uses)@[e]).target == old(reg).sig_map@[e].id,
    ensures
        reg_wf(*final(reg)),
        final(reg).n == n,
        final(reg).pg == old(reg).pg,
        forall|t: int|
            0 <= t < old(reg).targets@.len() ==> #[trigger] final(reg).targets@[t] == old(reg).targets@[t],
        final(uses)@.len() == final(reg).sig_map@.len(),
        forall|e: int|
            0 <= e < final(uses)@.len() ==> (#[trigger] final(uses)@[e]).target == final(reg).sig_map@[e].id,
        recorded(final(reg).sig_map@, final(uses)@) == recorded(old(reg).sig_map@, old(uses)@)
            + plan3_from(n as int, 0, 0, 0),
        forall|e: int|
            old(uses)@.len() <= e < final(uses)@.len() ==> n * n <= (#[trigger] final(uses)@[e]).index < n * n + c3(n as int),
{
    let ghost base = recorded(old(reg).sig_map@, old(uses)@);
    let ghost us0len = old(uses)@.len();
    let mut i: usize = 0;
    while i < n
        invariant
            i <= n,
            n <= MAX_COORDS,
            reg_wf(*reg),
            reg.n == n,
            reg.pg == old(reg).pg,
            forall|t: int|
                0 <= t < old(reg).targets@.len() ==> #[trigger] reg.targets@[t] == old(reg).targets@[t],
                old(reg).targets@.len() <= reg.targets@.len(),
            uses@.len() == reg.sig_map@.len(),
            us0len <= uses@.len(),
            forall|e: int|
                0 <= e < uses@.len() ==> (#[trigger] uses@[e]).target == reg.sig_map@[e].id,
            forall|e: int|
                us0len <= e < uses@.len() ==> n * n <= (#[trigger] uses@[e]).index < n * n + c3(
                    n as int,
                ),
            recorded(reg.sig_map@, uses@) + plan3_from(n as int, i as int, i as int, i as int)
                == base + plan3_from(n as int, 0, 0, 0),
        decreases n - i,
    {
        let mut j: usize = i;
        while j < n
            invariant
                i < n,
                i <= j <= n,
                n <= MAX_COORDS,
                reg_wf(*reg),
                reg.n == n,
                reg.pg == old(reg).pg,
                forall|t: int|
                    0 <= t < old(reg).targets@.len() ==> #[trigger] reg.targets@[t] == old(reg).targets@[t],
                    old(reg).targets@.len() <= reg.targets@.len(),
                uses@.len() == reg.sig_map@.len(),
                us0len <= uses@.len(),
                forall|e: int|
                    0 <= e < uses@.len() ==> (#[trigger] uses@[e]).target == reg.sig_map@[e].id,
                forall|e: int|
                    us0len <= e < uses@.len() ==> n * n <= (#[trigger] uses@[e]).index < n * n
                        + c3(n as int),
                recorded(reg.sig_map@, uses@) + plan3_from(n as int, i as int, j as int, j as int)
                    == base + plan3_from(n as int, 0, 0, 0),
            decreases n - j,
        {
            let mut k: usize = j;
            while k < n
                invariant
                    i <= j < n,
                    j <= k <= n,
                    n <= MAX_COORDS,
                    reg_wf(*reg),
                    reg.n == n,
                    reg.pg == old(reg).pg,
                    forall|t: int|
                        0 <= t < old(reg).targets@.len() ==> #[trigger] reg.targets@[t] == old(reg).targets@[t],
                        old(reg).targets@.len() <= reg.targets@.len(),
                    uses@.len() == reg.sig_map@.len(),
                    us0len <= uses@.len(),
                    forall|e: int|
                        0 <= e < uses@.len() ==> (#[trigger] uses@[e]).target == reg.sig_map@[e].id,
                    forall|e: int|
                        us0len <= e < uses@.len() ==> n * n <= (#[trigger] uses@[e]).index < n * n
                            + c3(n as int),
                    recorded(reg.sig_map@, uses@) + plan3_from(
                        n as int,
                        i as int,
                        j as int,
                        k as int,
                    ) == base + plan3_from(n as int, 0, 0, 0),
                decreases n - k,
            {
                let st = stencil3(n, i, j, k);
                let ghost items = items_of(st@);
                proof {
                    assert(plan3_from(n as int, i as int, j as int, k as int) == items3(
                        n as int,
                        i as int,
                        j as int,
                        k as int,
                    ) + plan3_from(n as int, i as int, j as int, k as int + 1));
                    assert(items.skip(0) =~= items);
                }
                let stlen = st.len();
                let mut p: usize = 0;
                while p < stlen
                    invariant
                        p <= stlen,
                        stlen == st@.len(),
                        i <= j <= k < n,
                        n <= MAX_COORDS,
                        reg_wf(*reg),
                        reg.n == n,
                        reg.pg == old(reg).pg,
                        forall|t: int|
                            0 <= t < old(reg).targets@.len() ==> #[trigger] reg.targets@[t] == old(reg).targets@[t],
                            old(reg).targets@.len() <= reg.targets@.len(),
                        items == items_of(st@),
                        items == items3(n as int, i as int, j as int, k as int),
                        forall|p2: int|
                            0 <= p2 < st@.len() ==> n * n <= (#[trigger] st@[p2]).1 < n * n + c3(
                                n as int,
                            ),
                        forall|p2: int| 0 <= p2 < st@.len() ==> (#[trigger] st@[p2]).0@.len() == n,
                        forall|p2: int|
                            0 <= p2 < st@.len() ==> crate::sig::sig_wf(
                                (#[trigger] st@[p2]).0@,
                                n as nat,
                            ),
                        uses@.len() == reg.sig_map@.len(),
                        us0len <= uses@.len(),
                        forall|e: int|
                            0 <= e < uses@.len() ==> (#[trigger] uses@[e]).target
                                == reg.sig_map@[e].id,
                        forall|e: int|
                            us0len <= e < uses@.len() ==> n * n <= (#[trigger] uses@[e]).index < n
                                * n + c3(n as int),
                        recorded(reg.sig_map@, uses@) + items.skip(p as int) + plan3_from(
                            n as int,
                            i as int,
                            j as int,
                            k as int + 1,
                        ) == base + plan3_from(n as int, 0, 0, 0),
                    decreases stlen - p,
                {
                    let ghost sm0 = reg.sig_map@;
                    let ghost us0 = uses@;
                    let id = reg.lookup_or_insert(&st[p].0);
                    uses.push(FcUse { target: id, index: st[p].1, coeff: st[p].2 });
                    proof {
                        let x = items[p as int];
                        assert(x == (
                            st@[p as int].0@,
                            st@[p as int].1 as int,
                            st@[p as int].2 as int,
                        ));
                        assert(recorded(reg.sig_map@, uses@) =~= recorded(sm0, us0).push(x));
                        assert(items.skip(p as int) =~= seq![x] + items.skip(p as int + 1));
                        assert(recorded(sm0, us0).push(x) + items.skip(p as int + 1) + plan3_from(
                            n as int,
                            i as int,
                            j as int,
                            k as int + 1,
                        ) =~= recorded(sm0, us0) + items.skip(p as int) + plan3_from(
                            n as int,
                            i as int,
                            j as int,
                            k as int + 1,
                        ));
                    }
                    p = p + 1;
                }
                proof {
                    assert(items.skip(st@.len() as int) =~= Seq::<(Seq<i32>, int, int)>::empty());
                    assert(recorded(reg.sig_map@, uses@) + items.skip(st@.len() as int)
                        + plan3_from(n as int, i as int, j as int, k as int + 1) =~= recorded(
                        reg.sig_map@,
                        uses@,
                    ) + plan3_from(n as int, i as int, j as int, k as int + 1));
                }
                k = k + 1;
            }
            proof {
                assert(plan3_from(n as int, i as int, j as int, n as int) == plan3_from(
                    n as int,
                    i as int,
                    j as int + 1,
                    j as int + 1,
                ));
            }
            j = j + 1;
        }
        proof {
            assert(plan3_from(n as int, i as int, n as int, n as int) == plan3_from(
                n as int,
                i as int + 1,
                i as int + 1,
                i as int + 1,
            ));
        }
        i = i + 1;
    }
    proof {
        assert(plan3_from(n as int, n as int, n as int, n as int) =~= Seq::<
            (Seq<i32>, int, int),
        >::empty());
        assert(recorded(reg.sig_map@, uses@) =~= recorded(reg.sig_map@, uses@) + plan3_from(
            n as int,
            n as int,
            n as int,
            n as int,
        ));
    }
}

/// Appends every fourth-derivative stencil sample and the fourth-order
/// reference coefficients to the plan being built.
fn add_order4(reg: &mut Registry, uses: &mut Vec<FcUse>, refs: &mut Vec<RefUse>, n: usize)
    requires
        reg_wf(*old(reg)),
        old(reg).n == n,
        n <= MAX_COORDS,
        old(uses)@.len() == old(reg).sig_map@.len(),
        forall|e: int|
            0 <= e < old(uses)@.len() ==> (#[trigger] old(uses)@[e]).target == old(reg).sig_map@[e].id,
    ensures
        reg_wf(*final(reg)),
        final(reg).n == n,
        final(reg).pg == old(reg).pg,
        forall|t: int|
            0 <= t < old(reg).targets@.len() ==> #[trigger] final(reg).targets@[t] == old(reg).targets@[t],
        final(uses)@.len() == final(reg).sig_map@.len(),
        forall|e: int|
            0 <= e < final(uses)@.len() ==> (#[trigger] final(uses)@[e]).target == final(reg).sig_map@[e].id,
        recorded(final(reg).sig_map@, final(uses)@) == recorded(old(reg).sig_map@, old(uses)@)
            + plan4_from(n as int, 0, 0, 0, 0),
        ref_view(final(refs)@) == ref_view(old(refs)@) + refs4_from(n as int, 0, 0, 0, 0),
        forall|e: int|
            old(uses)@.len() <= e < final(uses)@.len() ==> n * n + c3(n as int) <= (
            #[trigger] final(uses)@[e]).index < n * n + c3(n as int) + c4(n as int),
        forall|e: int|
            old(refs)@.len() <= e < final(refs)@.len() ==> n * n + c3(n as int) <= (
            #[trigger] final(refs)@[e]).index < n * n + c3(n as int) + c4(n as int),
{
    let ghost base = recorded(old(reg).sig_map@, old(uses)@);
    let ghost rbase = ref_view(old(refs)@);
    let ghost us0len = old(uses)@.len();
    let ghost rs0len = old(refs)@.len();
    let mut i: usize = 0;
    while i < n
        invariant
            i <= n,
            n <= MAX_COORDS,
            reg_wf(*reg),
            reg.n == n,
            reg.pg == old(reg).pg,
            forall|t: int|
                0 <= t < old(reg).targets@.len() ==> #[trigger] reg.targets@[t] == old(reg).targets@[t],
            old(reg).targets@.len() <= reg.targets@.len(),
            uses@.len() == reg.sig_map@.len(),
            us0len <= uses@.len(),
            rs0len <= refs@.len(),
            forall|e: int|
                0 <= e < uses@.len() ==> (#[trigger] uses@[e]).target == reg.sig_map@[e].id,
            forall|e: int|
                us0len <= e < uses@.len() ==> n * n + c3(n as int) <= (#[trigger] uses@[e]).index
                    < n * n + c3(n as int) + c4(n as int),
            forall|e: int|
                rs0len <= e < refs@.len() ==> n * n + c3(n as int) <= (#[trigger] refs@[e]).index
                    < n * n + c3(n as int) + c4(n as int),
            recorded(reg.sig_map@, uses@) + plan4_from(
                n as int,
                i as int,
                i as int,
                i as int,
                i as int,
            ) == base + plan4_from(n as int, 0, 0, 0, 0),
            ref_view(refs@) + refs4_from(n as int, i as int, i as int, i as int, i as int)
                == rbase + refs4_from(n as int, 0, 0, 0, 0),
        decreases n - i,
    {
        let mut j: usize = i;
        while j < n
            invariant
                i < n,
                i <= j <= n,
                n <= MAX_COORDS,
                reg_wf(*reg),
                reg.n == n,
                reg.pg == old(reg).pg,
                forall|t: int|
                    0 <= t < old(reg).targets@.len() ==> #[trigger] reg.targets@[t] == old(reg).targets@[t],
                old(reg).targets@.len() <= reg.targets@.len(),
                uses@.len() == reg.sig_map@.len(),
                us0len <= uses@.len(),
                rs0len <= refs@.len(),
                forall|e: int|
                    0 <= e < uses@.len() ==> (#[trigger] uses@[e]).target == reg.sig_map@[e].id,
                forall|e: int|
                    us0len <= e < uses@.len() ==> n * n + c3(n as int) <= (
                    #[trigger] uses@[e]).index < n * n + c3(n as int) + c4(n as int),
                forall|e: int|
                    rs0len <= e < refs@.len() ==> n * n + c3(n as int) <= (
                    #[trigger] refs@[e]).index < n * n + c3(n as int) + c4(n as int),
                recorded(reg.sig_map@, uses@) + plan4_from(
                    n as int,
                    i as int,
                    j as int,
                    j as int,
                    j as int,
                ) == base + plan4_from(n as int, 0, 0, 0, 0),
                ref_view(refs@) + refs4_from(n as int, i as int, j as int, j as int, j as int)
                    == rbase + refs4_from(n as int, 0, 0, 0, 0),
            decreases n - j,
        {
            let mut k: usize = j;
            while k < n
                invariant
                    i <= j < n,
                    j <= k <= n,
                    n <= MAX_COORDS,
                    reg_wf(*reg),
                    reg.n == n,
                    reg.pg == old(reg).pg,
                    forall|t: int|
                        0 <= t < old(reg).targets@.len() ==> #[trigger] reg.targets@[t] == old(reg).targets@[t],
                    old(reg).targets@.len() <= reg.targets@.len(),
                    uses@.len() == reg.sig_map@.len(),
                    us0len <= uses@.len(),
                    rs0len <= refs@.len(),
                    forall|e: int|
                        0 <= e < uses@.len() ==> (#[trigger] uses@[e]).target == reg.sig_map@[e].id,
                    forall|e: int|
                        us0len <= e < uses@.len() ==> n * n + c3(n as int) <= (
                        #[trigger] uses@[e]).index < n * n + c3(n as int) + c4(n as int),
                    forall|e: int|
                        rs0len <= e < refs@.len() ==> n * n + c3(n as int) <= (
                        #[trigger] refs@[e]).index < n * n + c3(n as int) + c4(n as int),
                    recorded(reg.sig_map@, uses@) + plan4_from(
                        n as int,
                        i as int,
                        j as int,
                        k as int,
                        k as int,
                    ) == base + plan4_from(n as int, 0, 0, 0, 0),
                    ref_view(refs@) + refs4_from(n as int, i as int, j as int, k as int, k as int)
                        == rbase + refs4_from(n as int, 0, 0, 0, 0),
                decreases n - k,
            {
                let mut l: usize = k;
                while l < n
                    invariant
                        i <= j <= k < n,
                        k <= l <= n,
                        n <= MAX_COORDS,
                        reg_wf(*reg),
                        reg.n == n,
                        reg.pg == old(reg).pg,
                        forall|t: int|
                            0 <= t < old(reg).targets@.len() ==> #[trigger] reg.targets@[t] == old(reg).targets@[t],
                        old(reg).targets@.len() <= reg.targets@.len(),
                        uses@.len() == reg.sig_map@.len(),
                        us0len <= uses@.len(),
                        rs0len <= refs@.len(),
                        forall|e: int|
                            0 <= e < uses@.len() ==> (#[trigger] uses@[e]).target == reg.sig_map@[e].id,
                        forall|e: int|
                            us0len <= e < uses@.len() ==> n * n + c3(n as int) <= (
                            #[trigger] uses@[e]).index < n * n + c3(n as int) + c4(n as int),
                        forall|e: int|
                            rs0len <= e < refs@.len() ==> n * n + c3(n as int) <= (
                            #[trigger] refs@[e]).index < n * n + c3(n as int) + c4(n as int),
                        recorded(reg.sig_map@, uses@) + plan4_from(
                            n as int,
                            i as int,
                            j as int,
                            k as int,
                            l as int,
                        ) == base + plan4_from(n as int, 0, 0, 0, 0),
                        ref_view(refs@) + refs4_from(
                            n as int,
                            i as int,
                            j as int,
                            k as int,
                            l as int,
                        ) == rbase + refs4_from(n as int, 0, 0, 0, 0),
                    decreases n - l,
                {
                    let st = stencil4(n, i, j, k, l);
                    let ghost items = items_of(st@);
                    proof {
                        assert(plan4_from(n as int, i as int, j as int, k as int, l as int)
                            == items4(n as int, i as int, j as int, k as int, l as int)
                            + plan4_from(n as int, i as int, j as int, k as int, l as int + 1));
                        assert(items.skip(0) =~= items);
                    }
                    let stlen = st.len();
                    let mut p: usize = 0;
                    while p < stlen
                        invariant
                            p <= stlen,
                            stlen == st@.len(),
                            i <= j <= k <= l < n,
                            n <= MAX_COORDS,
                            reg_wf(*reg),
                            reg.n == n,
                            reg.pg == old(reg).pg,
                            forall|t: int|
                                0 <= t < old(reg).targets@.len() ==> #[trigger] reg.targets@[t] == old(reg).targets@[t],
                            old(reg).targets@.len() <= reg.targets@.len(),
                            items == items_of(st@),
                            items == items4(n as int, i as int, j as int, k as int, l as int),
                            forall|p2: int|
                                0 <= p2 < st@.len() ==> n * n + c3(n as int) <= (
                                #[trigger] st@[p2]).1 < n * n + c3(n as int) + c4(n as int),
                            forall|p2: int|
                                0 <= p2 < st@.len() ==> (#[trigger] st@[p2]).0@.len() == n,
                            forall|p2: int|
                                0 <= p2 < st@.len() ==> crate::sig::sig_wf(
                                    (#[trigger] st@[p2]).0@,
                                    n as nat,
                                ),
                            uses@.len() == reg.sig_map@.len(),
                            us0len <= uses@.len(),
                            rs0len <= refs@.len(),
                            forall|e: int|
                                0 <= e < uses@.len() ==> (#[trigger] uses@[e]).target
                                    == reg.sig_map@[e].id,
                            forall|e: int|
                                us0len <= e < uses@.len() ==> n * n + c3(n as int) <= (
                                #[trigger] uses@[e]).index < n * n + c3(n as int) + c4(n as int),
                            forall|e: int|
                                rs0len <= e < refs@.len() ==> n * n + c3(n as int) <= (
                                #[trigger] refs@[e]).index < n * n + c3(n as int) + c4(n as int),
                            recorded(reg.sig_map@, uses@) + items.skip(p as int) + plan4_from(
                                n as int,
                                i as int,
                                j as int,
                                k as int,
                                l as int + 1,
                            ) == base + plan4_from(n as int, 0, 0, 0, 0),
                            ref_view(refs@) + refs4_from(
                                n as int,
                                i as int,
                                j as int,
                                k as int,
                                l as int,
                            ) == rbase + refs4_from(n as int, 0, 0, 0, 0),
                        decreases stlen - p,
                    {
                        let ghost sm0 = reg.sig_map@;
                        let ghost us0 = uses@;
                        let id = reg.lookup_or_insert(&st[p].0);
                        uses.push(FcUse { target: id, index: st[p].1, coeff: st[p].2 });
                        proof {
                            let x = items[p as int];
                            assert(x == (
                                st@[p as int].0@,
                                st@[p as int].1 as int,
                                st@[p as int].2 as int,
                            ));
                            assert(recorded(reg.sig_map@, uses@) =~= recorded(sm0, us0).push(x));
                            assert(items.skip(p as int) =~= seq![x] + items.skip(p as int + 1));
                            assert(recorded(sm0, us0).push(x) + items.skip(p as int + 1)
                                + plan4_from(
                                n as int,
                                i as int,
                                j as int,
                                k as int,
                                l as int + 1,
                            ) =~= recorded(sm0, us0) + items.skip(p as int) + plan4_from(
                                n as int,
                                i as int,
                                j as int,
                                k as int,
                                l as int + 1,
                            ));
                        }
                        p = p + 1;
                    }
                    let pure4 = i == j && j == k && k == l;
                    let square4 = i == j && k == l && j != k;
                    if pure4 || square4 {
                        proof {
                            lemma_c3_closed(MAX_COORDS as int);
                            lemma_c3_mono(n as int, MAX_COORDS as int);
                            lemma_c4_closed(MAX_COORDS as int);
                            lemma_c4_mono(n as int, MAX_COORDS as int);
                            lemma_counts_nonneg(n as int);
                            assert(n * n <= MAX_COORDS * MAX_COORDS) by (nonlinear_arith)
                                requires
                                    n <= MAX_COORDS,
                            ;
                        }
                        let x = n * n + c3_exec(n) + idx4_exec(n, i, j, k, l);
                        let ghost rs0 = refs@;
                        let coeff: i64 = if pure4 {
                            6
                        } else {
                            4
                        };
                        refs.push(RefUse { index: x, coeff });
                        proof {
                            let xi = (x as int, coeff as int);
                            assert(ref_view(refs@) =~= ref_view(rs0).push(xi));
                            assert(refs4_at(n as int, i as int, j as int, k as int, l as int)
                                =~= seq![xi]);
                            assert(refs4_from(n as int, i as int, j as int, k as int, l as int)
                                == refs4_at(n as int, i as int, j as int, k as int, l as int)
                                + refs4_from(n as int, i as int, j as int, k as int, l as int + 1));
                            assert(ref_view(rs0).push(xi) + refs4_from(
                                n as int,
                                i as int,
                                j as int,
                                k as int,
                                l as int + 1,
                            ) =~= ref_view(rs0) + refs4_from(
                                n as int,
                                i as int,
                                j as int,
                                k as int,
                                l as int,
                            ));
                        }
                    } else {
                        proof {
                            assert(refs4_at(n as int, i as int, j as int, k as int, l as int)
                                =~= Seq::<(int, int)>::empty());
                            assert(refs4_from(n as int, i as int, j as int, k as int, l as int)
                                == refs4_at(n as int, i as int, j as int, k as int, l as int)
                                + refs4_from(n as int, i as int, j as int, k as int, l as int + 1));
                            assert(ref_view(refs@) + refs4_from(
                                n as int,
                                i as int,
                                j as int,
                                k as int,
                                l as int + 1,
                            ) =~= ref_view(refs@) + refs4_from(
                                n as int,
                                i as int,
                                j as int,
                                k as int,
                                l as int,
                            ));
                        }
                    }
                    proof {
                        assert(items.skip(st@.len() as int) =~= Seq::<
                            (Seq<i32>, int, int),
                        >::empty());
                        assert(recorded(reg.sig_map@, uses@) + items.skip(st@.len() as int)
                            + plan4_from(
                            n as int,
                            i as int,
                            j as int,
                            k as int,
                            l as int + 1,
                        ) =~= recorded(reg.sig_map@, uses@) + plan4_from(
                            n as int,
                            i as int,
                            j as int,
                            k as int,
                            l as int + 1,
                        ));
                    }
                    l = l + 1;
                }
                proof {
                    assert(plan4_from(n as int, i as int, j as int, k as int, n as int)
                        == plan4_from(n as int, i as int, j as int, k as int + 1, k as int + 1));
                    assert(refs4_from(n as int, i as int, j as int, k as int, n as int)
                        == refs4_from(n as int, i as int, j as int, k as int + 1, k as int + 1));
                }
                k = k + 1;
            }
            proof {
                assert(plan4_from(n as int, i as int, j as int, n as int, n as int) == plan4_from(
                    n as int,
                    i as int,
                    j as int + 1,
                    j as int + 1,
                    j as int + 1,
                ));
                assert(refs4_from(n as int, i as int, j as int, n as int, n as int) == refs4_from(
                    n as int,
                    i as int,
                    j as int + 1,
                    j as int + 1,
                    j as int + 1,
                ));
            }
            j = j + 1;
        }
        proof {
            assert(plan4_from(n as int, i as int, n as int, n as int, n as int) == plan4_from(
                n as int,
                i as int + 1,
                i as int + 1,
                i as int + 1,
                i as int + 1,
            ));
            assert(refs4_from(n as int, i as int, n as int, n as int, n as int) == refs4_from(
                n as int,
                i as int + 1,
                i as int + 1,
                i as int + 1,
                i as int + 1,
            ));
        }
        i = i + 1;
    }
    proof {
        assert(plan4_from(n as int, n as int, n as int, n as int, n as int) =~= Seq::<
            (Seq<i32>, int, int),
        >::empty());
        assert(refs4_from(n as int, n as int, n as int, n as int, n as int) =~= Seq::<
            (int, int),
        >::empty());
        assert(recorded(reg.sig_map@, uses@) =~= recorded(reg.sig_map@, uses@) + plan4_from(
            n as int,
            n as int,
            n as int,
            n as int,
            n as int,
        ));
        assert(ref_view(refs@) =~= ref_view(refs@) + refs4_from(
            n as int,
            n as int,
            n as int,
            n as int,
            n as int,
        ));
    }
}

/// Builds the sampled points of one run at the requested derivative order.
///
/// The returned plan records exactly the stencil samples of
/// [`full_plan`]`(n, deriv)`, in order, each resolved through the registry
/// to its target, and exactly the reference coefficients of
/// [`full_refs`]`(n, deriv)`.  The targets' displacements, in id order, are
/// the unique geometries to submit; the number of unique targets can never
/// exceed the number of samples.
pub fn build_points(n: usize, pg: PointGroup, deriv: &Derivative) -> (r: PointPlan)
    requires
        n <= MAX_COORDS,
        group_wf(pg, n as nat),
    ensures
        plan_wf(r, fcs_len(n as int, *deriv)),
        r.registry.n == n,
        r.registry.pg == pg,
        recorded(r.registry.sig_map@, r.uses@) == full_plan(n as int, *deriv),
        ref_view(r.ref_uses@) == full_refs(n as int, *deriv),
        r.registry.targets@.len() <= full_plan(n as int, *deriv).len(),
{
    let mut reg = Registry::new(n, pg);
    let mut uses: Vec<FcUse> = Vec::new();
    let mut refs: Vec<RefUse> = Vec::new();
    proof {
        lemma_counts_nonneg(n as int);
        assert(recorded(reg.sig_map@, uses@) =~= Seq::<(Seq<i32>, int, int)>::empty());
        assert(ref_view(refs@) =~= Seq::<(int, int)>::empty());
    }
    add_order2(&mut reg, &mut uses, &mut refs, n);
    proof {
        assert(recorded(reg.sig_map@, uses@) =~= plan2_from(n as int, 0, 0));
        assert(ref_view(refs@) =~= refs2_from(n as int, 0, 0));
    }
    let ghost l2 = uses@.len();
    let ghost r2 = refs@.len();
    let ghost sm2 = reg.sig_map@;
    let ghost us2 = uses@;
    let ghost rf2 = refs@;
    match deriv {
        Derivative::Harmonic => {
            proof {
                assert(fcs_len(n as int, *deriv) == n * n);
            }
        },
        Derivative::Cubic => {
            add_order3(&mut reg, &mut uses, n);
            proof {
                assert(fcs_len(n as int, *deriv) == n * n + c3(n as int));
                assert forall|e: int| 0 <= e < uses@.len() implies (#[trigger] uses@[e]).index < n
                    * n + c3(n as int) by {
                    if e < l2 {
                        assert(recorded(reg.sig_map@, uses@)[e] == recorded(sm2, us2)[e]);
                        assert(recorded(reg.sig_map@, uses@)[e].1 == uses@[e].index as int);
                        assert(recorded(sm2, us2)[e].1 == us2[e].index as int);
                        assert(us2[e].index < n * n);
                    }
                }
                assert forall|e: int| 0 <= e < refs@.len() implies (#[trigger] refs@[e]).index < n
                    * n + c3(n as int) by {}
            }
        },
        Derivative::Quartic => {
            add_order3(&mut reg, &mut uses, n);
            let ghost rec3 = recorded(reg.sig_map@, uses@);
            let ghost l3 = uses@.len();
            let ghost sm3 = reg.sig_map@;
            let ghost us3 = uses@;
            proof {
                assert(rec3 == plan2_from(n as int, 0, 0) + plan3_from(n as int, 0, 0, 0));
            }
            add_order4(&mut reg, &mut uses, &mut refs, n);
            proof {
                assert(recorded(reg.sig_map@, uses@) =~= plan2_from(n as int, 0, 0) + plan3_from(
                    n as int,
                    0,
                    0,
                    0,
                ) + plan4_from(n as int, 0, 0, 0, 0));
                assert(ref_view(refs@) =~= refs2_from(n as int, 0, 0) + refs4_from(
                    n as int,
                    0,
                    0,
                    0,
                    0,
                ));
                assert(fcs_len(n as int, *deriv) == n * n + c3(n as int) + c4(n as int));
                assert forall|e: int| 0 <= e < uses@.len() implies (#[trigger] uses@[e]).index < n
                    * n + c3(n as int) + c4(n as int) by {
                    if e < l3 {
                        assert(recorded(reg.sig_map@, uses@)[e] == recorded(sm3, us3)[e]);
                        assert(recorded(reg.sig_map@, uses@)[e].1 == uses@[e].index as int);
                        assert(recorded(sm3, us3)[e].1 == us3[e].index as int);
                        if e < l2 {
                            assert(recorded(sm3, us3)[e] == recorded(sm2, us2)[e]);
                            assert(recorded(sm2, us2)[e].1 == us2[e].index as int);
                            assert(us2[e].index < n * n);
                        } else {
                            assert(us3[e].index < n * n + c3(n as int));
                        }
                    }
                }
                assert forall|e: int| 0 <= e < refs@.len() implies (#[trigger] refs@[e]).index < n
                    * n + c3(n as int) + c4(n as int) by {
                    if e < r2 {
                        assert(ref_view(refs@)[e] == ref_view(rf2)[e]);
                        assert(ref_view(refs@)[e].0 == refs@[e].index as int);
                        assert(ref_view(rf2)[e].0 == rf2[e].index as int);
                        assert(rf2[e].index < n * n);
                    }
                }
            }
        },
    }
    proof {
        assert(reg.targets@.len() <= reg.sig_map@.len());
        assert(recorded(reg.sig_map@, uses@).len() == reg.sig_map@.len());
    }
    PointPlan { registry: reg, uses, ref_uses: refs }
}

/// No reduction without symmetry: a harmonic pass under the trivial point
/// group allocates one target per sample — the target count reaches the
/// sample bound `2 * n * n` exactly, and only a nontrivial group (or a
/// higher derivative order, whose stencils share samples) brings it down.
pub proof fn lemma_harmonic_trivial_counts(reg: Registry, us: Seq<FcUse>)
    requires
        reg_wf(reg),
        us.len() == reg.sig_map@.len(),
        recorded(reg.sig_map@, us) == plan2_from(reg.n as int, 0, 0),
        reg.pg.ops@.len() == 1,
        crate::symmetry::op_is_identity(reg.pg.ops@[0], reg.n as nat),
    ensures
        reg.targets@.len() == reg.sig_map@.len(),
        reg.sig_map@.len() == 2 * reg.n * reg.n,
{
    let n = reg.n as int;
    let full = plan2_from(n, 0, 0);
    crate::stencil::lemma_harmonic_sample_count(n);
    assert(recorded(reg.sig_map@, us).len() == reg.sig_map@.len());
    assert forall|e1: int, e2: int|
        0 <= e1 < e2 < reg.sig_map@.len() implies (#[trigger] reg.sig_map@[e1]).sig@ != (
    #[trigger] reg.sig_map@[e2]).sig@ by {
        crate::stencil::lemma_plan2_distinct(n, 0, 0, e1, e2);
        assert(recorded(reg.sig_map@, us)[e1].0 == reg.sig_map@[e1].sig@);
        assert(recorded(reg.sig_map@, us)[e2].0 == reg.sig_map@[e2].sig@);
        assert(full[e1].0 != full[e2].0);
    }
    crate::registry::lemma_trivial_group_counts(reg);
}

/// Any real symmetry reduces the harmonic target count strictly: a
/// non-identity operation moves some wide diagonal sample onto a different
/// sample of the same orbit, both of which are enumerated, so at least one
/// lookup reuses an existing target.
pub proof fn lemma_nontrivial_group_reduces(reg: Registry, us: Seq<FcUse>, k: int)
    requires
        reg_wf(reg),
        us.len() == reg.sig_map@.len(),
        recorded(reg.sig_map@, us) == plan2_from(reg.n as int, 0, 0),
        0 <= k < reg.pg.ops@.len(),
        !crate::symmetry::op_is_identity(reg.pg.ops@[k], reg.n as nat),
    ensures
        reg.targets@.len() < reg.sig_map@.len(),
{
    let n = reg.n as int;
    let full = plan2_from(n, 0, 0);
    let op = reg.pg.ops@[k];
    assert(crate::symmetry::op_wf(op, reg.n as nat));
    // A non-identity operation moves or flips some coordinate.
    let c = choose|c: int| 0 <= c < n && (op.perm@[c] != c || op.neg@[c]);
    assert(0 <= c < n && (op.perm@[c] != c || op.neg@[c])) by {
        if forall|c2: int| 0 <= c2 < n ==> #[trigger] op.perm@[c2] == c2 && !op.neg@[c2] {
            assert(forall|c2: int| 0 <= c2 < n ==> #[trigger] op.perm@[c2] == c2);
            assert(forall|c2: int| 0 <= c2 < n ==> !(#[trigger] op.neg@[c2]));
            assert(crate::symmetry::op_is_identity(op, reg.n as nat));
            assert(false);
        }
    }
    let s1 = crate::stencil::sig1(n, c, 2);
    assert(crate::sig::sig_wf(s1, reg.n as nat)) by {
        assert forall|x: int| 0 <= x < s1.len() implies -crate::sig::MAX_STEP <= #[trigger] s1[x]
            <= crate::sig::MAX_STEP by {}
    }
    let s2 = crate::symmetry::act(op, s1);
    let c2 = op.perm@[c] as int;
    let step2: int = if op.neg@[c] {
        -2
    } else {
        2
    };
    assert(s2 == crate::stencil::sig1(n, c2, step2)) by {
        crate::symmetry::lemma_act_at(op, s1, c);
        assert(s2[c2] == crate::symmetry::signed_step(op.neg@[c], 2i32));
        assert forall|d: int| 0 <= d < n && d != c2 implies s2[d] == 0i32 by {
            crate::symmetry::lemma_preimage(op, reg.n as nat, d);
            let cd = choose|cd: int| 0 <= cd < s1.len() && op.perm@[cd] == d;
            assert(cd != c);
            assert(s1[cd] == 0i32);
            crate::symmetry::lemma_act_at(op, s1, cd);
            assert(s2[d] == crate::symmetry::signed_step(op.neg@[cd], 0i32));
        }
        assert(s2 =~= crate::stencil::sig1(n, c2, step2));
    }
    assert(s1 != s2) by {
        if op.perm@[c] != c {
            assert(s1[c] == 2i32);
            assert(s2[c] == 0i32);
        } else {
            assert(s1[c] == 2i32);
            assert(s2[c] == (-2) as i32);
        }
    }
    // Both samples are enumerated: they are the wide diagonal samples of
    // entries (c, c) and (c2, c2).
    assert(s1 == items2(n, c, c)[0].0);
    let p2: int = if step2 == 2 {
        0
    } else {
        1
    };
    assert(s2 == items2(n, c2, c2)[p2].0);
    crate::stencil::lemma_plan2_contains(n, 0, 0, c, c, 0);
    let e1 = choose|e: int|
        0 <= e < full.len() && #[trigger] plan2_from(n, 0, 0)[e] == items2(n, c, c)[0];
    crate::stencil::lemma_plan2_contains(n, 0, 0, c2, c2, p2);
    let e2 = choose|e: int|
        0 <= e < full.len() && #[trigger] plan2_from(n, 0, 0)[e] == items2(n, c2, c2)[p2];
    assert(reg.sig_map@[e1].sig@ == s1) by {
        assert(recorded(reg.sig_map@, us)[e1].0 == reg.sig_map@[e1].sig@);
    }
    assert(reg.sig_map@[e2].sig@ == s2) by {
        assert(recorded(reg.sig_map@, us)[e2].0 == reg.sig_map@[e2].sig@);
    }
    assert(e1 != e2);
    crate::symmetry::lemma_canon_same_orbit(reg.pg, s1, k);
    assert(canon(reg.pg, s2) == canon(reg.pg, s1));
    crate::registry::lemma_target_count(reg);
    if reg.targets@.len() == reg.sig_map@.len() {
        if e1 < e2 {
            assert(canon(reg.pg, reg.sig_map@[e1].sig@) != canon(reg.pg, reg.sig_map@[e2].sig@));
        } else {
            assert(canon(reg.pg, reg.sig_map@[e2].sig@) != canon(reg.pg, reg.sig_map@[e1].sig@));
        }
        assert(false);
    }
}

/// The unique geometries of a pass: each target's untransformed
/// displacement signature, in target-id order.  Submitting exactly these,
/// with the job id equal to the position, matches every energy back to its
/// target.
pub fn unique_displacements(plan: &PointPlan) -> (r: Vec<Vec<i32>>)
    ensures
        r@.len() == plan.registry.targets@.len(),
        forall|t: int| 0 <= t < r@.len() ==> #[trigger] r@[t]@ == plan.registry.targets@[t].disp@,
{
    let ntargets = plan.registry.targets.len();
    let mut r: Vec<Vec<i32>> = Vec::new();
    let mut t: usize = 0;
    while t < ntargets
        invariant
            t <= ntargets,
            ntargets == plan.registry.targets@.len(),
            r@.len() == t,
            forall|t2: int|
                0 <= t2 < t ==> #[trigger] r@[t2]@ == plan.registry.targets@[t2].disp@,
        decreases ntargets - t,
    {
        r.push(crate::sig::sig_copy(&plan.registry.targets[t].disp));
        t = t + 1;
    }
    r
}

} // verus!

