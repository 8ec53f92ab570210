//! Properties that relate several operations of the library.
use vstd::prelude::*;

use crate::abtm::AbtmTopology;
use crate::aggregate::{best_home, class_edges, label_before, lemma_injection_into, merge_candidate, merge_target, renumbered};
use crate::csr::{
    lemma_fnv_bytes_injective, signature_verdict, spec_fnv_mix, spec_structure_signature, spec_value_signature,
    FNV_OFFSET,
};
use crate::escalation::{
    among_first, candidate_pool, chosen_from, core_mask, discovered, grown_region, hop, hops, in_order, kept_in_region,
    pool_yields, stronger,
};
use crate::mask::{count_true, lemma_count_prefix_mono, lemma_count_push, lists_true_positions};
use crate::policy::{resolved_coarse_policy, TwoLevelCoarseApplyPolicy};
use crate::regions::{
    budget_fold, canon, factor_bytes_scan, lemma_canon, lemma_merge_unique, merge_spec, spec_candidate_order_selection,
    strictly_increasing, views,
};

verus! {

/// Resolving a coarse apply policy twice gives the policy resolved once: an
/// explicit choice is never changed again, whatever the coarse dimension.
pub proof fn law_resolve_is_idempotent(policy: TwoLevelCoarseApplyPolicy, d1: nat, d2: nat)
    ensures
        resolved_coarse_policy(resolved_coarse_policy(policy, d1), d2) == resolved_coarse_policy(policy, d1),
        resolved_coarse_policy(policy, d1) != TwoLevelCoarseApplyPolicy::Auto,
{
}

/// Halo growth never drops a DOF: each layer keeps the mask it grows from,
/// so more layers give a superset.
pub proof fn law_halo_growth_keeps_the_core(t: AbtmTopology, s: Seq<bool>, a: nat, b: nat)
    requires
        a <= b,
    ensures
        hops(t, s, a).len() == s.len(),
        forall|i: int| 0 <= i < s.len() && #[trigger] hops(t, s, a)[i] ==> hops(t, s, b)[i],
    decreases b,
{
    lemma_hops_len(t, s, b);
    lemma_hops_len(t, s, a);
    if a < b {
        law_halo_growth_keeps_the_core(t, s, a, (b - 1) as nat);
        lemma_hops_len(t, s, (b - 1) as nat);
        assert forall|i: int| 0 <= i < s.len() && #[trigger] hops(t, s, a)[i] implies hops(t, s, b)[i] by {
            assert(hops(t, s, (b - 1) as nat)[i]);
            assert(hops(t, s, b) == hop(t, hops(t, s, (b - 1) as nat)));
        }
    }
}

proof fn lemma_hops_len(t: AbtmTopology, s: Seq<bool>, layers: nat)
    ensures
        hops(t, s, layers).len() == s.len(),
    decreases layers,
{
    if layers > 0 {
        lemma_hops_len(t, s, (layers - 1) as nat);
    }
}

/// Two increasing DOF lists with the same members are the same list.
pub proof fn lemma_increasing_unique(a: Seq<usize>, b: Seq<usize>)
    requires
        strictly_increasing(a),
        strictly_increasing(b),
        forall|v: usize| a.contains(v) <==> b.contains(v),
    ensures
        a == b,
    decreases a.len(),
{
    if a.len() == 0 {
        if b.len() > 0 {
            assert(b.contains(b[0]));
        }
        assert(a =~= b);
    } else {
        assert(a.contains(a[0]));
        assert(b.len() > 0);
        assert(b.contains(b[0]));
        let ka = choose|k: int| 0 <= k < a.len() && a[k] == b[0];
        let kb = choose|k: int| 0 <= k < b.len() && b[k] == a[0];
        if ka > 0 {
            assert(a[0] < a[ka]);
        }
        if kb > 0 {
            assert(b[0] < b[kb]);
        }
        assert(a[0] == b[0]);
        let ra = a.drop_first();
        let rb = b.drop_first();
        assert forall|v: usize| ra.contains(v) <==> rb.contains(v) by {
            if ra.contains(v) {
                let k = choose|k: int| 0 <= k < ra.len() && ra[k] == v;
                assert(a[k + 1] == v && a[0] < v);
                assert(a.contains(v));
                let q = choose|q: int| 0 <= q < b.len() && b[q] == v;
                assert(q != 0);
                assert(rb[q - 1] == v);
            }
            if rb.contains(v) {
                let k = choose|k: int| 0 <= k < rb.len() && rb[k] == v;
                assert(b[k + 1] == v && b[0] < v);
                assert(b.contains(v));
                let q = choose|q: int| 0 <= q < a.len() && a[q] == v;
                assert(q != 0);
                assert(ra[q - 1] == v);
            }
        }
        lemma_increasing_unique(ra, rb);
        assert(a =~= seq![a[0]] + ra);
        assert(b =~= seq![b[0]] + rb);
    }
}

/// A mask built from a list of DOFs lists back exactly those DOFs, sorted
/// and each once: the indices of `from_indices(len, xs)` are `canon(xs)`.
pub proof fn law_mask_round_trip(len: nat, xs: Seq<usize>, listed: Seq<usize>)
    requires
        forall|k: int| 0 <= k < xs.len() ==> xs[k] < len,
        lists_true_positions(listed, Seq::new(len, |i: int| xs.contains(i as usize))),
    ensures
        listed == canon(xs),
{
    let s = Seq::new(len, |i: int| xs.contains(i as usize));
    lemma_canon(xs);
    assert forall|v: usize| listed.contains(v) <==> canon(xs).contains(v) by {
        if listed.contains(v) {
            let k = choose|k: int| 0 <= k < listed.len() && listed[k] == v;
            assert(s[listed[k] as int]);
        }
        if xs.contains(v) {
            let k = choose|k: int| 0 <= k < xs.len() && xs[k] == v;
            assert(s[v as int]);
        }
    }
    lemma_increasing_unique(listed, canon(xs));
}

/// Merging the same candidates a second time adds nothing: every region
/// learned the first time is found again.
pub proof fn law_merge_is_idempotent(acc: Seq<Seq<usize>>, candidates: Seq<Seq<usize>>)
    ensures
        merge_spec(merge_spec(acc, candidates), candidates) == merge_spec(acc, candidates),
{
    lemma_merge_unique(acc, candidates);
    lemma_merge_skips_known(merge_spec(acc, candidates), candidates);
}

/// A merge whose every non-empty candidate is already known leaves the
/// learned regions as they are.
proof fn lemma_merge_skips_known(acc: Seq<Seq<usize>>, candidates: Seq<Seq<usize>>)
    requires
        forall|k: int|
            0 <= k < candidates.len() && canon(#[trigger] candidates[k]).len() > 0 ==> acc.contains(
                canon(candidates[k]),
            ),
    ensures
        merge_spec(acc, candidates) == acc,
    decreases candidates.len(),
{
    if candidates.len() > 0 {
        let rest = candidates.drop_first();
        assert forall|k: int|
            0 <= k < rest.len() && canon(#[trigger] rest[k]).len() > 0 implies acc.contains(canon(rest[k])) by {
            assert(rest[k] == candidates[k + 1]);
        }
        lemma_merge_skips_known(acc, rest);
    }
}

} // verus!

verus! {

/// Two strongest-first selections from pools with the same regions pick the
/// same pool positions, position by position.
proof fn lemma_same_choice(
    out1: Seq<Vec<usize>>,
    out2: Seq<Vec<usize>>,
    pool1: Seq<Vec<usize>>,
    pool2: Seq<Vec<usize>>,
    level: Seq<usize>,
    max: nat,
    c1: Seq<int>,
    c2: Seq<int>,
    t: int,
)
    requires
        views(pool1) == views(pool2),
        chosen_from(out1, pool1, level, max, c1),
        chosen_from(out2, pool2, level, max, c2),
        0 <= t < c1.len(),
    ensures
        forall|s: int| 0 <= s <= t ==> #[trigger] c1[s] == c2[s],
    decreases t,
{
    if t > 0 {
        lemma_same_choice(out1, out2, pool1, pool2, level, max, c1, c2, t - 1);
    }
    assert(pool1.len() == views(pool1).len() && pool2.len() == views(pool2).len());
    let a = c1[t];
    let b = c2[t];
    if a != b {
        assert(pool1[b]@ == views(pool1)[b] && pool2[b]@ == views(pool2)[b]);
        assert(pool1[a]@ == views(pool1)[a] && pool2[a]@ == views(pool2)[a]);
        // Where `b` stands in the first choice, or that it was left out,
        // makes pool region `a` stronger than pool region `b`.
        assert(stronger(level, pool1[a]@, pool1[b]@)) by {
            if c1.contains(b) {
                let u = choose|u: int| 0 <= u < c1.len() && c1[u] == b;
                if u < t {
                    assert(c2[u] == b);
                }
                assert(u != t);
                assert(stronger(level, out1[t]@, out1[u]@));
            } else {
                assert(stronger(level, out1[t]@, pool1[b]@));
            }
        }
        assert(stronger(level, pool2[b]@, pool2[a]@)) by {
            if c2.contains(a) {
                let u = choose|u: int| 0 <= u < c2.len() && c2[u] == a;
                if u < t {
                    assert(c1[u] == a);
                }
                assert(u != t);
                assert(stronger(level, out2[t]@, out2[u]@));
            } else {
                assert(stronger(level, out2[t]@, pool2[a]@));
            }
        }
    }
}

/// The core-region search is determined by its inputs: any two results
/// that meet its contract for the same graph, masks, priorities and limits
/// list the same regions in the same order.
pub proof fn law_core_regions_are_determined(
    r1: Seq<Vec<usize>>,
    r2: Seq<Vec<usize>>,
    adj: Seq<Seq<usize>>,
    risk: Seq<bool>,
    seeds: Seq<bool>,
    order: Seq<usize>,
    level: Seq<usize>,
    cap: nat,
    max: nat,
)
    requires
        discovered(r1, adj, risk, seeds, order, level, cap, max),
        discovered(r2, adj, risk, seeds, order, level, cap, max),
    ensures
        views(r1) == views(r2),
{
    let pool1 = choose|pool: Seq<Vec<usize>>|
        #![trigger views(pool)]
        views(pool) == candidate_pool(adj, risk, seeds, order, cap) && pool_yields(
            pool,
            r1,
            risk,
            seeds,
            cap,
            level,
            max,
            adj.len(),
        );
    let pool2 = choose|pool: Seq<Vec<usize>>|
        #![trigger views(pool)]
        views(pool) == candidate_pool(adj, risk, seeds, order, cap) && pool_yields(
            pool,
            r2,
            risk,
            seeds,
            cap,
            level,
            max,
            adj.len(),
        );
    let c1 = choose|c: Seq<int>| #[trigger] chosen_from(r1, pool1, level, max, c);
    let c2 = choose|c: Seq<int>| #[trigger] chosen_from(r2, pool2, level, max, c);
    assert(pool1.len() == views(pool1).len() && pool2.len() == views(pool2).len());
    if c1.len() > 0 {
        lemma_same_choice(r1, r2, pool1, pool2, level, max, c1, c2, c1.len() - 1);
    }
    assert forall|t: int| 0 <= t < r1.len() implies views(r1)[t] == views(r2)[t] by {
        assert(c1[t] == c2[t]);
        assert(pool1[c1[t]]@ == views(pool1)[c1[t]] && pool2[c2[t]]@ == views(pool2)[c2[t]]);
    }
    assert(views(r1) =~= views(r2));
}

} // verus!

verus! {

proof fn lemma_renumbering_prefix(b1: Seq<usize>, c1: nat, b2: Seq<usize>, c2: nat, a: Seq<usize>, i: int)
    requires
        renumbered(b1, c1, a),
        renumbered(b2, c2, a),
        0 <= i < a.len(),
    ensures
        forall|k: int| 0 <= k <= i ==> #[trigger] b1[k] == b2[k],
    decreases i,
{
    if i > 0 {
        lemma_renumbering_prefix(b1, c1, b2, c2, a, i - 1);
    }
    if b1[i] < b2[i] {
        // The smaller label already occurs before `i` in the second
        // numbering, at a node of the same class.
        assert(label_before(b2, i, b1[i] as int));
        let j = choose|j: int| 0 <= j < i && #[trigger] b2[j] == b1[i] as int;
        assert(b1[j] == b2[j]);
        assert(a[j] == a[i]);
    } else if b2[i] < b1[i] {
        assert(label_before(b1, i, b2[i] as int));
        let j = choose|j: int| 0 <= j < i && #[trigger] b1[j] == b2[i] as int;
        assert(b1[j] == b2[j]);
        assert(a[j] == a[i]);
    }
}

/// Renumbering the classes of a labelling in order of first appearance has
/// one outcome: two renumberings of the same labelling are equal and use
/// the same number of labels.
pub proof fn law_renumbering_is_unique(b1: Seq<usize>, c1: nat, b2: Seq<usize>, c2: nat, a: Seq<usize>)
    requires
        renumbered(b1, c1, a),
        renumbered(b2, c2, a),
    ensures
        b1 == b2,
        c1 == c2,
{
    if a.len() > 0 {
        lemma_renumbering_prefix(b1, c1, b2, c2, a, a.len() - 1);
    }
    assert(b1 =~= b2);
    if c1 < c2 {
        assert(label_before(b2, b2.len() as int, c1 as int));
        let j = choose|j: int| 0 <= j < b2.len() && #[trigger] b2[j] == c1 as int;
        assert(b1[j] < c1);
    }
    if c2 < c1 {
        assert(label_before(b1, b1.len() as int, c2 as int));
        let j = choose|j: int| 0 <= j < b1.len() && #[trigger] b1[j] == c2 as int;
        assert(b2[j] < c2);
    }
}

} // verus!

verus! {

proof fn lemma_budget_fold_fits(
    rows: nat,
    accepted: Seq<Seq<usize>>,
    pending: Seq<Seq<usize>>,
    max: nat,
    w: nat,
    skipped: nat,
)
    requires
        factor_bytes_scan(rows, accepted, w) matches Ok(b) && b <= max,
    ensures
        budget_fold(rows, accepted, pending, max, w, skipped) matches Ok((acc, s)) ==> {
            &&& factor_bytes_scan(rows, acc, w) matches Ok(b) && b <= max
            &&& acc.len() >= accepted.len()
            &&& acc.take(accepted.len() as int) == accepted
        },
    decreases pending.len(),
{
    if pending.len() > 0 {
        match factor_bytes_scan(rows, accepted.push(pending[0]), w) {
            Err(e) => {},
            Ok(b) => {
                if b <= max {
                    lemma_budget_fold_fits(rows, accepted.push(pending[0]), pending.drop_first(), max, w, skipped);
                    let r = budget_fold(rows, accepted.push(pending[0]), pending.drop_first(), max, w, skipped);
                    if let Ok((acc, s)) = r {
                        assert(acc.take(accepted.len() as int) =~= acc.take(accepted.len() as int + 1).take(
                            accepted.len() as int,
                        ));
                        assert(accepted.push(pending[0]).take(accepted.len() as int) =~= accepted);
                    }
                } else {
                    lemma_budget_fold_fits(rows, accepted, pending.drop_first(), max, w, skipped + 1);
                }
            },
        }
    } else {
        assert(accepted.take(accepted.len() as int) =~= accepted);
    }
}

/// Choosing regions in candidate order never exceeds the factor-memory
/// budget, and never evicts a learned region: the accepted regions start
/// with the learned ones (each once, in canonical form) and their estimated
/// factor bytes are within the budget.
pub proof fn law_candidate_order_respects_budget(
    rows: nat,
    existing: Seq<Seq<usize>>,
    candidates: Seq<Seq<usize>>,
    max: nat,
    w: nat,
)
    ensures
        spec_candidate_order_selection(rows, existing, candidates, max, w) matches Ok((acc, skipped)) ==> {
            let learned = merge_spec(Seq::empty(), existing);
            &&& factor_bytes_scan(rows, acc, w) matches Ok(b) && b <= max
            &&& acc.len() >= learned.len()
            &&& acc.take(learned.len() as int) == learned
        },
{
    let learned = merge_spec(Seq::empty(), existing);
    match factor_bytes_scan(rows, learned, w) {
        Err(e) => {},
        Ok(b) => {
            if b <= max {
                lemma_budget_fold_fits(
                    rows,
                    learned,
                    merge_spec(learned, candidates).skip(learned.len() as int),
                    max,
                    w,
                    0,
                );
            }
        },
    }
}

} // verus!

verus! {

/// Every DOF of a core that fits the region limit stays in the region grown
/// from it: halo DOFs are only added, and only a core larger than the limit
/// is cut.
pub proof fn law_grown_region_keeps_the_core(
    t: AbtmTopology,
    core: Seq<usize>,
    order: Seq<usize>,
    layers: nat,
    max: nat,
    r: Seq<usize>,
)
    requires
        grown_region(t, core, order, layers, max, r),
        canon(core).len() <= max,
        forall|k: int| 0 <= k < core.len() ==> #[trigger] core[k] < t.spec_nrows(),
    ensures
        forall|v: usize| core.contains(v) ==> r.contains(v),
{
    let s = core_mask(t.spec_nrows(), core);
    let expanded = hops(t, s, layers);
    law_halo_growth_keeps_the_core(t, s, 0, layers);
    lemma_hops_len(t, s, layers);
    lemma_canon(core);
    assert forall|v: usize| core.contains(v) implies r.contains(v) by {
        let k = choose|k: int| 0 <= k < core.len() && core[k] == v;
        assert(s[v as int]);
        assert(hops(t, s, 0) == s);
        assert(hops(t, s, 0)[v as int]);
        assert(expanded[v as int]);
        assert(expanded.len() == t.spec_nrows());
        assert(canon(core).contains(v));
        assert(kept_in_region(expanded, core, order, max, v));
    }
}

/// A region grown from a core never holds more DOFs than the region limit,
/// which bounds every local dense factor.
pub proof fn law_grown_region_is_bounded(
    t: AbtmTopology,
    core: Seq<usize>,
    order: Seq<usize>,
    layers: nat,
    max: nat,
    r: Seq<usize>,
)
    requires
        grown_region(t, core, order, layers, max, r),
    ensures
        r.len() <= max,
{
    let expanded = hops(t, core_mask(t.spec_nrows(), core), layers);
    let c = canon(core);
    lemma_canon(core);
    assert forall|i: int| 0 <= i < r.len() implies kept_in_region(expanded, core, order, max, #[trigger] r[i]) by {
        assert(r.contains(r[i]));
    }
    if count_true(expanded) <= max {
        // Each DOF goes to the number of expanded DOFs below it.
        let f = |i: int| count_true(expanded.take(r[i] as int)) as int;
        assert forall|i: int| 0 <= i < r.len() implies 0 <= #[trigger] f(i) < count_true(expanded) by {
            let v = r[i] as int;
            lemma_count_push(expanded, v);
            lemma_count_prefix_mono(expanded, v + 1, expanded.len() as int);
            assert(expanded.take(expanded.len() as int) =~= expanded);
        }
        assert forall|i: int, l: int| 0 <= i < l < r.len() implies #[trigger] f(i) != #[trigger] f(l) by {
            lemma_count_push(expanded, r[i] as int);
            lemma_count_prefix_mono(expanded, r[i] + 1, r[l] as int);
        }
        lemma_injection_into(f, r.len() as int, count_true(expanded) as int);
    } else if c.len() > max {
        // Each DOF goes to its position in the cut core.
        let f = |i: int| choose|p: int| 0 <= p < max && #[trigger] c.take(max as int)[p] == r[i];
        assert forall|i: int| 0 <= i < r.len() implies 0 <= #[trigger] f(i) < max && c.take(max as int)[f(i)] == r[i] by {
            assert(c.take(max as int).contains(r[i]));
        }
        assert forall|i: int, l: int| 0 <= i < l < r.len() implies #[trigger] f(i) != #[trigger] f(l) by {
            assert(r[i] < r[l]);
        }
        lemma_injection_into(f, r.len() as int, max as int);
    } else {
        // Core DOFs go to their position in the core; halo DOFs to the core
        // length plus the number of halo DOFs taken before them.
        let halo = Seq::new(expanded.len(), |i: int| expanded[i] && !core.contains(i as usize));
        let s = in_order(order, halo);
        let room = (max - c.len()) as nat;
        let pos = |i: int| choose|p: int| 0 <= p < c.len() && #[trigger] c[p] == r[i];
        let at = |i: int|
            choose|k: int|
                0 <= k < order.len() && order[k] == r[i] && #[trigger] s[k] && count_true(s.take(k)) < room;
        let f = |i: int| if c.contains(r[i]) { pos(i) } else { (c.len() + count_true(s.take(at(i)))) as int };
        assert forall|i: int| 0 <= i < r.len() implies 0 <= #[trigger] f(i) < max by {
            if !c.contains(r[i]) {
                assert(among_first(order, halo, room, r[i]));
            }
        }
        assert forall|i: int, l: int| 0 <= i < l < r.len() implies #[trigger] f(i) != #[trigger] f(l) by {
            assert(r[i] < r[l]);
            if c.contains(r[i]) && c.contains(r[l]) {
                assert(c[pos(i)] == r[i] && c[pos(l)] == r[l]);
            } else if !c.contains(r[i]) && !c.contains(r[l]) {
                assert(among_first(order, halo, room, r[i]));
                assert(among_first(order, halo, room, r[l]));
                let ki = at(i);
                let kl = at(l);
                assert(order[ki] == r[i] && order[kl] == r[l]);
                if ki < kl {
                    lemma_count_push(s, ki);
                    lemma_count_prefix_mono(s, ki + 1, kl);
                } else {
                    lemma_count_push(s, kl);
                    lemma_count_prefix_mono(s, kl + 1, ki);
                }
            } else if c.contains(r[i]) {
                assert(among_first(order, halo, room, r[l]));
            } else {
                assert(among_first(order, halo, room, r[i]));
            }
        }
        lemma_injection_into(f, r.len() as int, max as int);
    }
}

/// A prepared context accepts again the matrix it was prepared for: with
/// an unchanged structure and unchanged value bits both signatures agree and
/// the reuse check passes, whatever the matrix holds.
pub proof fn law_unchanged_matrix_is_accepted(
    nrows: usize,
    ncols: usize,
    row_ptr: Seq<u32>,
    col_idx: Seq<u32>,
    value_bits: Seq<u64>,
    structure_changed: &'static str,
    values_changed: &'static str,
)
    ensures
        ({
            let structure = spec_structure_signature(nrows, ncols, value_bits.len() as usize, row_ptr, col_idx);
            let sigs = (structure, spec_value_signature(structure, value_bits));
            signature_verdict(sigs, sigs, structure_changed, values_changed) == Ok::<(), crate::error::HybitError>(())
        }),
{
}

/// Mixing a word into a signature never merges two different running
/// signatures: every byte step xors in the same byte and multiplies by the
/// odd FNV prime, both of which are one-to-one on 64-bit words.
pub proof fn law_fnv_mix_is_injective_in_the_hash(h1: u64, h2: u64, value: u64)
    requires
        h1 != h2,
    ensures
        spec_fnv_mix(h1, value) != spec_fnv_mix(h2, value),
{
    lemma_fnv_bytes_injective(h1, h2, value, 0);
}

/// A small aggregate that is merged joins its strongest neighbour: the
/// aggregate it moves into receives at least as many of its edges as any
/// other non-empty aggregate it reaches, and among those with as many edges
/// it is the smallest, then the one with the lowest label.
pub proof fn law_small_aggregate_joins_its_strongest_neighbour(
    adj: Seq<Seq<usize>>,
    a: Seq<usize>,
    counts: Seq<usize>,
    small: int,
    y: usize,
)
    requires
        merge_target(adj, a, counts, small) == Some(y),
    ensures
        merge_candidate(adj, a, counts, small, y as int),
        class_edges(adj, a, small, y as int) > 0,
        forall|z: int|
            #[trigger] merge_candidate(adj, a, counts, small, z) ==> class_edges(adj, a, small, y as int) >= class_edges(
                adj,
                a,
                small,
                z,
            ),
        forall|z: int|
            #[trigger] merge_candidate(adj, a, counts, small, z) && z != y as int && class_edges(adj, a, small, y as int)
                == class_edges(adj, a, small, z) ==> counts[y as int] < counts[z] || (counts[y as int] == counts[z] && (y
                as int) < z),
{
    assert(best_home(adj, a, counts, small, y));
}

/// The value signature of no stored values is the structure signature mixed
/// into the FNV offset basis, and storing one more value mixes exactly that
/// value into the signature of the values before it: every stored value,
/// the first included, enters the signature, in order.
pub proof fn law_value_signature_mixes_every_value(structure: u64, values: Seq<u64>, v: u64)
    ensures
        spec_value_signature(structure, Seq::empty()) == spec_fnv_mix(FNV_OFFSET, structure),
        spec_value_signature(structure, values.push(v)) == spec_fnv_mix(spec_value_signature(structure, values), v),
{
    assert(values.push(v).drop_last() =~= values);
}

/// Once the value signatures of two value lists differ, storing the same
/// further values after both keeps them different: a changed value is never
/// hidden by the values that follow it.
pub proof fn law_value_signature_keeps_a_difference(structure: u64, p1: Seq<u64>, p2: Seq<u64>, tail: Seq<u64>)
    requires
        spec_value_signature(structure, p1) != spec_value_signature(structure, p2),
    ensures
        spec_value_signature(structure, p1 + tail) != spec_value_signature(structure, p2 + tail),
    decreases tail.len(),
{
    if tail.len() == 0 {
        assert(p1 + tail =~= p1);
        assert(p2 + tail =~= p2);
    } else {
        let init = tail.drop_last();
        law_value_signature_keeps_a_difference(structure, p1, p2, init);
        law_value_signature_mixes_every_value(structure, p1 + init, tail.last());
        law_value_signature_mixes_every_value(structure, p2 + init, tail.last());
        assert((p1 + init).push(tail.last()) =~= p1 + tail);
        assert((p2 + init).push(tail.last()) =~= p2 + tail);
        lemma_fnv_bytes_injective(
            spec_value_signature(structure, p1 + init),
            spec_value_signature(structure, p2 + init),
            tail.last(),
            0,
        );
    }
}

/// The regions that the decisions `d` keep from `pending`, in order.
pub open spec fn kept_by(pending: Seq<Seq<usize>>, d: Seq<bool>) -> Seq<Seq<usize>>
    decreases pending.len(),
{
    if pending.len() == 0 || d.len() == 0 {
        Seq::empty()
    } else {
        let rest = kept_by(pending.drop_first(), d.drop_first());
        if d[0] {
            seq![pending[0]] + rest
        } else {
            rest
        }
    }
}

/// Number of refusals among the decisions.
pub open spec fn refusals(d: Seq<bool>) -> nat
    decreases d.len(),
{
    if d.len() == 0 {
        0
    } else {
        refusals(d.drop_first()) + if d[0] {
            0nat
        } else {
            1nat
        }
    }
}

/// Taking `region` after the regions `before` is estimated without error,
/// and it is taken exactly when the estimate stays within `max`.
pub open spec fn decided_by_budget(
    rows: nat,
    before: Seq<Seq<usize>>,
    region: Seq<usize>,
    max: nat,
    w: nat,
    take: bool,
) -> bool {
    factor_bytes_scan(rows, before.push(region), w) matches Ok(b) && (take <==> b <= max)
}

/// The decisions `d` walk the candidates in order, each accepted exactly
/// when it fits the budget next to the regions accepted before it.
pub open spec fn budget_decisions(
    rows: nat,
    accepted: Seq<Seq<usize>>,
    pending: Seq<Seq<usize>>,
    max: nat,
    w: nat,
    d: Seq<bool>,
) -> bool {
    &&& d.len() == pending.len()
    &&& forall|k: int|
        0 <= k < pending.len() ==> #[trigger] decided_by_budget(
            rows,
            accepted + kept_by(pending.take(k), d.take(k)),
            pending[k],
            max,
            w,
            d[k],
        )
}

proof fn lemma_budget_fold_decisions(
    rows: nat,
    accepted: Seq<Seq<usize>>,
    pending: Seq<Seq<usize>>,
    max: nat,
    w: nat,
    skipped: nat,
    acc: Seq<Seq<usize>>,
    sk: nat,
) -> (d: Seq<bool>)
    requires
        budget_fold(rows, accepted, pending, max, w, skipped) == Ok::<(Seq<Seq<usize>>, nat), crate::error::HybitError>((acc, sk)),
    ensures
        budget_decisions(rows, accepted, pending, max, w, d),
        acc == accepted + kept_by(pending, d),
        sk == skipped + refusals(d),
    decreases pending.len(),
{
    if pending.len() == 0 {
        let d = Seq::<bool>::empty();
        assert(accepted + kept_by(pending, d) =~= accepted);
        d
    } else {
        let p0 = pending[0];
        let rest = pending.drop_first();
        let b = factor_bytes_scan(rows, accepted.push(p0), w)->Ok_0;
        let take = b <= max;
        let next = if take { accepted.push(p0) } else { accepted };
        let next_skipped = if take { skipped } else { skipped + 1 };
        let d1 = lemma_budget_fold_decisions(rows, next, rest, max, w, next_skipped, acc, sk);
        let d = seq![take] + d1;
        assert(d.drop_first() =~= d1);
        assert(kept_by(pending, d) == (if take { seq![p0] + kept_by(rest, d1) } else { kept_by(rest, d1) }));
        if take {
            assert(acc =~= accepted + kept_by(pending, d));
        } else {
            assert(acc =~= accepted + kept_by(pending, d));
        }
        assert forall|k: int| 0 <= k < pending.len() implies #[trigger] decided_by_budget(
            rows,
            accepted + kept_by(pending.take(k), d.take(k)),
            pending[k],
            max,
            w,
            d[k],
        ) by {
            if k == 0 {
                assert(kept_by(pending.take(0), d.take(0)) =~= Seq::<Seq<usize>>::empty());
                assert(accepted + kept_by(pending.take(k), d.take(k)) =~= accepted);
            } else {
                assert(decided_by_budget(rows, next + kept_by(rest.take(k - 1), d1.take(k - 1)), rest[k - 1], max, w, d1[k - 1]));
                assert(pending.take(k).drop_first() =~= rest.take(k - 1));
                assert(d.take(k).drop_first() =~= d1.take(k - 1));
                assert(pending.take(k)[0] == p0);
                assert(d.take(k)[0] == take);
                assert(accepted + kept_by(pending.take(k), d.take(k)) =~= next + kept_by(rest.take(k - 1), d1.take(k - 1)));
            }
        }
        d
    }
}

/// Choosing regions in candidate order skips a new candidate only when it
/// does not fit: the accepted regions are the learned ones followed by the
/// new candidates taken in order, where each new candidate is taken exactly
/// when its estimated factor bytes, next to the regions taken before it,
/// stay within the budget, and the skipped count is the number of
/// candidates refused. A later candidate that fits is taken even after an
/// earlier one was refused.
pub proof fn law_candidate_order_skips_only_what_overflows(
    rows: nat,
    existing: Seq<Seq<usize>>,
    candidates: Seq<Seq<usize>>,
    max: nat,
    w: nat,
    acc: Seq<Seq<usize>>,
    skipped: nat,
)
    requires
        spec_candidate_order_selection(rows, existing, candidates, max, w) == Ok::<
            (Seq<Seq<usize>>, nat),
            crate::error::HybitError,
        >((acc, skipped)),
    ensures
        ({
            let learned = merge_spec(Seq::empty(), existing);
            let pending = merge_spec(learned, candidates).skip(learned.len() as int);
            exists|d: Seq<bool>|
                #[trigger] budget_decisions(rows, learned, pending, max, w, d) && acc == learned + kept_by(pending, d)
                    && skipped == refusals(d)
        }),
{
    let learned = merge_spec(Seq::empty(), existing);
    let pending = merge_spec(learned, candidates).skip(learned.len() as int);
    let d = lemma_budget_fold_decisions(rows, learned, pending, max, w, 0, acc, skipped);
    assert(budget_decisions(rows, learned, pending, max, w, d));
}

} // verus!
