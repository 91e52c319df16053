//! Solutions survive alias removal: every assignment that satisfies an instance,
//! with its dead private columns dropped, satisfies the instance that alias removal
//! makes of it, and keeps its public I/O.
use super::aliases::{
    alias_chains_end, alias_pair, alias_removal_outcome, at_row, compact_entry, compacted, follow,
    is_alias_pattern, is_kept_row, is_live, kept_rows, kept_rows_upto, lemma_position_of, live_before,
    merge_resolved, merged_row, nonzero_entry, position_of, references_column, resolved, substituted,
    substituted_upto, substitution, substitution_upto, valued,
};
use super::agreement::matrix_of;
use super::r1cs::{lemma_row_dot_concat, lemma_row_dot_other_rows, row_dot, row_holds};
use super::solver::{
    in_row, instance_fits, instance_width, is_reference, lemma_row_entries_fit, row_entries,
};
use super::spartan::{entry_view, matrix_view, SpartanInstance};
use crate::field::{bytes_value, field_order, FieldElement};
use vstd::arithmetic::div_mod::{
    lemma_add_mod_noop, lemma_fundamental_div_mod, lemma_mod_multiples_vanish, lemma_mul_mod_noop_left,
    lemma_small_mod, lemma_sub_mod_noop,
};
use vstd::prelude::*;

verus! {

/// `Σ coefficient · z[column]` over a row's entries.
pub open spec fn sum_all(entries: Seq<(usize, FieldElement)>, z: Seq<int>) -> int
    decreases entries.len(),
{
    if entries.len() == 0 {
        0
    } else {
        sum_all(entries.drop_last(), z) + entries.last().1.value() * z[entries.last().0 as int]
    }
}

/// A row's dot product is the sum over the solver's entries of the row.
pub proof fn lemma_row_dot_entries(m: Seq<(usize, usize, [u8; 32])>, r: int, z: Seq<int>)
    ensures
        row_dot(matrix_view(m), r, z) == sum_all(row_entries(m, r), z),
    decreases m.len(),
{
    if m.len() > 0 {
        let prev = m.drop_last();
        let e = m.last();
        lemma_row_dot_entries(prev, r, z);
        assert(matrix_view(m).drop_last() =~= matrix_view(prev));
        assert(matrix_view(m).last() == entry_view(e));
        assert(m =~= prev.push(e));
        prev.lemma_filter_push(e, in_row(r));
        if e.0 == r {
            let pe = row_entries(prev, r);
            assert(row_entries(m, r) =~= pe.push((e.1, FieldElement { bytes: e.2 })));
            assert(row_entries(m, r).drop_last() =~= pe);
        } else {
            assert(row_entries(m, r) =~= row_entries(prev, r));
        }
    }
}

/// Two values below ℓ that agree modulo ℓ are equal.
pub proof fn lemma_equal_residues(x: int, y: int)
    requires
        0 <= x < field_order(),
        0 <= y < field_order(),
        (x - y) % (field_order() as int) == 0,
    ensures
        x == y,
{
    let p = field_order() as int;
    lemma_fundamental_div_mod(x - y, p);
    let q = (x - y) / p;
    assert(x - y == p * q);
    if q > 0 {
        assert(p * q >= p) by (nonlinear_arith)
            requires
                q > 0,
                p > 0,
        ;
    } else if q < 0 {
        assert(p * q <= -p) by (nonlinear_arith)
            requires
                q < 0,
                p > 0,
        ;
    } else {
        assert(p * q == 0) by (nonlinear_arith)
            requires
                q == 0,
        ;
    }
}

/// The two columns of an alias row hold equal values in every solution.
pub proof fn lemma_alias_pair_values(
    inst: SpartanInstance,
    num_outputs: nat,
    inputs: Seq<FieldElement>,
    zr: Seq<int>,
    r: int,
)
    requires
        instance_fits(inst),
        is_reference(inst, num_outputs, inputs, zr),
        0 <= r < inst.num_cons,
    ensures
        alias_pair(inst, r) matches Some(pr) ==> pr.0 < zr.len() && pr.1 < zr.len() && zr[pr.0 as int]
            == zr[pr.1 as int],
{
    let a = row_entries(inst.A@, r);
    let b = row_entries(inst.B@, r);
    let c = row_entries(inst.C@, r);
    if is_alias_pattern(a, b, c, inst.num_vars) {
        let width = instance_width(inst);
        lemma_row_entries_fit(inst.A@, r, inst.num_cons as nat, width);
        lemma_row_entries_fit(inst.B@, r, inst.num_cons as nat, width);
        lemma_row_entries_fit(inst.C@, r, inst.num_cons as nat, width);
        lemma_row_dot_entries(inst.A@, r, zr);
        lemma_row_dot_entries(inst.B@, r, zr);
        lemma_row_dot_entries(inst.C@, r, zr);
        assert(a.drop_last() =~= Seq::<(usize, FieldElement)>::empty());
        assert(b.drop_last() =~= Seq::<(usize, FieldElement)>::empty());
        assert(c.drop_last() =~= Seq::<(usize, FieldElement)>::empty());
        assert(sum_all(Seq::<(usize, FieldElement)>::empty(), zr) == 0);
        assert(a.last() == a[0] && b.last() == b[0] && c.last() == c[0]);
        let av = a[0].1.value();
        let az = zr[a[0].0 as int];
        assert(av * az == az) by (nonlinear_arith)
            requires
                av == 1,
        ;
        assert(sum_all(a, zr) == zr[a[0].0 as int]);
        assert(zr[b[0].0 as int] == 1);
        let bv = b[0].1.value();
        let bz = zr[b[0].0 as int];
        assert(bv * bz == 1) by (nonlinear_arith)
            requires
                bv == 1,
                bz == 1,
        ;
        assert(sum_all(b, zr) == 1);
        let cv = c[0].1.value();
        let cz = zr[c[0].0 as int];
        assert(cv * cz == cz) by (nonlinear_arith)
            requires
                cv == 1,
        ;
        assert(sum_all(c, zr) == zr[c[0].0 as int]);
        assert(row_holds(matrix_view(inst.A@), matrix_view(inst.B@), matrix_view(inst.C@), r, zr));
        let da = row_dot(matrix_view(inst.A@), r, zr);
        let db = row_dot(matrix_view(inst.B@), r, zr);
        assert(da * db == da) by (nonlinear_arith)
            requires
                db == 1,
        ;
        lemma_equal_residues(zr[a[0].0 as int], zr[c[0].0 as int]);
    }
}

/// Every pair of a substitution built from the rows of a solved instance joins
/// columns of equal value.
pub proof fn lemma_substitution_values(
    inst: SpartanInstance,
    num_outputs: nat,
    inputs: Seq<FieldElement>,
    zr: Seq<int>,
    n: int,
)
    requires
        instance_fits(inst),
        is_reference(inst, num_outputs, inputs, zr),
        0 <= n <= inst.num_cons,
    ensures
        forall|k: usize|
            #[trigger] substitution_upto(inst, n).contains_key(k) ==> k < zr.len() && substitution_upto(
                inst,
                n,
            )[k] < zr.len() && zr[k as int] == zr[substitution_upto(inst, n)[k] as int],
    decreases n,
{
    if n > 0 {
        lemma_substitution_values(inst, num_outputs, inputs, zr, n - 1);
        lemma_alias_pair_values(inst, num_outputs, inputs, zr, n - 1);
        let m = substitution_upto(inst, n - 1);
        if let Some(pr) = alias_pair(inst, n - 1) {
            if !m.contains_key(pr.0) {
            let m2 = m.insert(pr.0, pr.1);
            assert(substitution_upto(inst, n) == m2);
            assert forall|k: usize| #[trigger] m2.contains_key(k) implies k < zr.len() && m2[k] < zr.len() && zr[k as int]
                == zr[m2[k] as int] by {
                if k != pr.0 {
                    assert(m.contains_key(k));
                }
            }
            }
        }
    }
}

/// Following the substitution keeps the value of a column.
pub proof fn lemma_follow_value(m: Map<usize, usize>, zr: Seq<int>, c: usize, t: nat)
    requires
        c < zr.len(),
        forall|k: usize|
            #[trigger] m.contains_key(k) ==> k < zr.len() && m[k] < zr.len() && zr[k as int] == zr[m[k] as int],
    ensures
        follow(m, c, t) < zr.len(),
        zr[follow(m, c, t) as int] == zr[c as int],
    decreases t,
{
    if t > 0 {
        lemma_follow_value(m, zr, c, (t - 1) as nat);
    }
}

/// A column and the end of its substitution chain hold the same value in every
/// solution.
pub proof fn lemma_resolved_value(
    inst: SpartanInstance,
    num_outputs: nat,
    inputs: Seq<FieldElement>,
    zr: Seq<int>,
    c: usize,
)
    requires
        instance_fits(inst),
        is_reference(inst, num_outputs, inputs, zr),
        c < zr.len(),
    ensures
        resolved(inst, c) < zr.len(),
        zr[resolved(inst, c) as int] == zr[c as int],
{
    lemma_substitution_values(inst, num_outputs, inputs, zr, inst.num_cons as int);
    let m = substitution(inst);
    lemma_follow_value(m, zr, c, m.dom().len());
}

/// `Σ coefficient · z[column]` over merged entries.
pub open spec fn merged_sum(s: Seq<(usize, nat)>, z: Seq<int>) -> int
    decreases s.len(),
{
    if s.len() == 0 {
        0
    } else {
        merged_sum(s.drop_last(), z) + s.last().1 * z[s.last().0 as int]
    }
}

/// `Σ coefficient · z[end of the column's substitution chain]` over a row's entries.
pub open spec fn resolved_sum(inst: SpartanInstance, entries: Seq<(usize, FieldElement)>, z: Seq<int>) -> int
    decreases entries.len(),
{
    if entries.len() == 0 {
        0
    } else {
        resolved_sum(inst, entries.drop_last(), z) + entries.last().1.value() * z[resolved(
            inst,
            entries.last().0,
        ) as int]
    }
}

/// Sums that agree modulo ℓ stay in agreement when terms that agree are added.
pub proof fn lemma_congruent_add(x: int, y: int, u: int, w: int)
    requires
        x % (field_order() as int) == y % (field_order() as int),
        u % (field_order() as int) == w % (field_order() as int),
    ensures
        (x + u) % (field_order() as int) == (y + w) % (field_order() as int),
{
    let p = field_order() as int;
    lemma_add_mod_noop(x, u, p);
    lemma_add_mod_noop(y, w, p);
}

/// Replacing one merged entry's coefficient changes the sum by the difference.
pub proof fn lemma_merged_sum_update(s: Seq<(usize, nat)>, i: int, c: usize, v: nat, z: Seq<int>)
    requires
        0 <= i < s.len(),
        s[i].0 == c,
    ensures
        merged_sum(s.update(i, (c, v)), z) == merged_sum(s, z) - s[i].1 * z[c as int] + v * z[c as int],
    decreases s.len(),
{
    let u = s.update(i, (c, v));
    if i == s.len() - 1 {
        assert(u.drop_last() =~= s.drop_last());
    } else {
        assert(u.drop_last() =~= s.drop_last().update(i, (c, v)));
        lemma_merged_sum_update(s.drop_last(), i, c, v, z);
    }
}

/// Merging a row's entries by the ends of their substitution chains keeps their sum
/// modulo ℓ.
pub proof fn lemma_merge_sum(inst: SpartanInstance, entries: Seq<(usize, FieldElement)>, z: Seq<int>)
    ensures
        merged_sum(merge_resolved(inst, entries), z) % (field_order() as int) == resolved_sum(inst, entries, z)
            % (field_order() as int),
    decreases entries.len(),
{
    let p = field_order() as int;
    if entries.len() > 0 {
        lemma_merge_sum(inst, entries.drop_last(), z);
        let m = merge_resolved(inst, entries.drop_last());
        let col = resolved(inst, entries.last().0);
        let v = entries.last().1.value();
        let x = z[col as int];
        let sm = merged_sum(m, z);
        let r = resolved_sum(inst, entries.drop_last(), z);
        lemma_position_of(m, col);
        match position_of(m, col) {
            Some(pos) => {
                let a = m[pos].1;
                let w = ((a + v) % field_order()) as nat;
                lemma_merged_sum_update(m, pos, col, w, z);
                lemma_mul_mod_noop_left((a + v) as int, x, p);
                assert((a + v) * x == a * x + v * x) by (nonlinear_arith);
                lemma_congruent_add(sm - a * x, sm - a * x, w * x, (a + v) * x);
                lemma_congruent_add(sm, r, v * x, v * x);
            },
            None => {
                assert(m.push((col, v % field_order())).drop_last() =~= m);
                lemma_mul_mod_noop_left(v as int, x, p);
                lemma_congruent_add(sm, r, ((v % field_order()) as nat) * x, v * x);
            },
        }
    }
}

/// Dropping entries with a zero coefficient keeps the sum.
pub proof fn lemma_nonzero_sum(s: Seq<(usize, nat)>, z: Seq<int>)
    ensures
        merged_sum(s.filter(nonzero_entry()), z) == merged_sum(s, z),
    decreases s.len(),
{
    if s.len() > 0 {
        let prev = s.drop_last();
        lemma_nonzero_sum(prev, z);
        assert(s =~= prev.push(s.last()));
        prev.lemma_filter_push(s.last(), nonzero_entry());
        if s.last().1 != 0 {
            assert(prev.filter(nonzero_entry()).push(s.last()).drop_last() =~= prev.filter(nonzero_entry()));
        } else {
            assert(s.last().1 * z[s.last().0 as int] == 0);
        }
    }
}

/// The sum along substitution chains is the plain sum when every column holds the
/// value of the end of its chain.
pub proof fn lemma_resolved_sum_plain(inst: SpartanInstance, entries: Seq<(usize, FieldElement)>, z: Seq<int>)
    requires
        forall|k: int| 0 <= k < entries.len() ==> z[resolved(inst, (#[trigger] entries[k]).0) as int] == z[entries[k].0 as int],
    ensures
        resolved_sum(inst, entries, z) == sum_all(entries, z),
    decreases entries.len(),
{
    if entries.len() > 0 {
        assert forall|k: int| 0 <= k < entries.drop_last().len() implies z[resolved(inst, (#[trigger] entries.drop_last()[k]).0) as int]
            == z[entries.drop_last()[k].0 as int] by {
            assert(entries.drop_last()[k] == entries[k]);
        }
        lemma_resolved_sum_plain(inst, entries.drop_last(), z);
        assert(entries.last() == entries[entries.len() - 1]);
    }
}

/// Matrix entries with their indices taken as integers.
pub open spec fn int_view(s: Seq<(usize, usize, nat)>) -> Seq<(int, int, nat)> {
    s.map_values(|e: (usize, usize, nat)| (e.0 as int, e.1 as int, e.2))
}

/// The integer view of a matrix is the integer view of its valued entries.
pub proof fn lemma_matrix_view_valued(m: Seq<(usize, usize, [u8; 32])>)
    ensures
        matrix_view(m) == int_view(valued(m)),
{
    assert(matrix_view(m) =~= int_view(valued(m)));
}

/// `Σ coefficient · z[compacted column]` over merged entries.
pub open spec fn compact_sum(inst: SpartanInstance, s: Seq<(usize, nat)>, z: Seq<int>) -> int
    decreases s.len(),
{
    if s.len() == 0 {
        0
    } else {
        compact_sum(inst, s.drop_last(), z) + s.last().1 * z[compacted(inst, s.last().0) as int]
    }
}

/// The entries of one merged row, placed at row `q` and compacted, contribute their
/// compacted sum to row `q` and nothing to the other rows.
pub proof fn lemma_piece_dot(inst: SpartanInstance, s: Seq<(usize, nat)>, q: usize, r: int, z: Seq<int>)
    ensures
        row_dot(int_view(s.map_values(at_row(q)).map_values(compact_entry(inst))), r, z) == if r == q {
            compact_sum(inst, s, z)
        } else {
            0
        },
    decreases s.len(),
{
    if s.len() > 0 {
        let prev = s.drop_last();
        lemma_piece_dot(inst, prev, q, r, z);
        let f = int_view(s.map_values(at_row(q)).map_values(compact_entry(inst)));
        assert(f.drop_last() =~= int_view(prev.map_values(at_row(q)).map_values(compact_entry(inst))));
        assert(f.last() == (q as int, compacted(inst, s.last().0) as int, s.last().1));
    }
}

/// Row `q` of the substituted, compacted entries of the kept rows before `n` is the
/// compacted sum of the merged `q`-th kept row.
pub proof fn lemma_substituted_dot(inst: SpartanInstance, m: Seq<(usize, usize, [u8; 32])>, n: int, q: int, z: Seq<int>)
    requires
        0 <= n,
        n <= usize::MAX,
    ensures
        row_dot(int_view(substituted_upto(inst, m, n).map_values(compact_entry(inst))), q, z) == if 0 <= q
            < kept_rows_upto(inst, n).len() {
            compact_sum(inst, merged_row(inst, m, kept_rows_upto(inst, n)[q]), z)
        } else {
            0
        },
    decreases n,
{
    if n > 0 {
        lemma_substituted_dot(inst, m, n - 1, q, z);
        super::aliases::lemma_kept_rows_len(inst, n - 1);
        let prev = substituted_upto(inst, m, n - 1);
        let kp = kept_rows_upto(inst, n - 1);
        if is_kept_row(inst, n - 1) {
            let row = kp.len() as usize;
            let piece = merged_row(inst, m, n - 1).map_values(at_row(row));
            assert(substituted_upto(inst, m, n) == prev + piece);
            assert((prev + piece).map_values(compact_entry(inst)) =~= prev.map_values(compact_entry(inst))
                + piece.map_values(compact_entry(inst)));
            assert(int_view(prev.map_values(compact_entry(inst)) + piece.map_values(compact_entry(inst)))
                =~= int_view(prev.map_values(compact_entry(inst))) + int_view(piece.map_values(compact_entry(inst))));
            lemma_row_dot_concat(
                int_view(prev.map_values(compact_entry(inst))),
                int_view(piece.map_values(compact_entry(inst))),
                q,
                z,
            );
            lemma_piece_dot(inst, merged_row(inst, m, n - 1), row, q, z);
            assert(kept_rows_upto(inst, n) == kp.push(n - 1));
            if 0 <= q < kp.len() {
                assert(kept_rows_upto(inst, n)[q] == kp[q]);
            }
        }
    }
}

/// Compacting the columns of merged entries keeps their sum when every compacted
/// column holds the value of its column.
pub proof fn lemma_compact_sum(inst: SpartanInstance, s: Seq<(usize, nat)>, zc: Seq<int>, zr: Seq<int>)
    requires
        forall|k: int| 0 <= k < s.len() ==> zc[compacted(inst, (#[trigger] s[k]).0) as int] == zr[s[k].0 as int],
    ensures
        compact_sum(inst, s, zc) == merged_sum(s, zr),
    decreases s.len(),
{
    if s.len() > 0 {
        assert forall|k: int| 0 <= k < s.drop_last().len() implies zc[compacted(inst, (#[trigger] s.drop_last()[k]).0) as int]
            == zr[s.drop_last()[k].0 as int] by {
            assert(s.drop_last()[k] == s[k]);
        }
        lemma_compact_sum(inst, s.drop_last(), zc, zr);
        assert(s.last() == s[s.len() - 1]);
    }
}

/// Each column of a kept row's merged entries is referenced by the substituted
/// entries.
pub proof fn lemma_merged_referenced(inst: SpartanInstance, m: Seq<(usize, usize, [u8; 32])>, n: int, r: int, k: int)
    requires
        0 <= r < n,
        is_kept_row(inst, r),
        0 <= k < merged_row(inst, m, r).len(),
    ensures
        references_column(substituted_upto(inst, m, n), merged_row(inst, m, r)[k].0),
    decreases n,
{
    let prev = substituted_upto(inst, m, n - 1);
    if is_kept_row(inst, n - 1) {
        let row = kept_rows_upto(inst, n - 1).len() as usize;
        let piece = merged_row(inst, m, n - 1).map_values(at_row(row));
        let whole = prev + piece;
        assert(substituted_upto(inst, m, n) == whole);
        if r == n - 1 {
            assert(whole[prev.len() + k] == piece[k]);
            assert(whole[prev.len() + k].1 == merged_row(inst, m, r)[k].0);
        } else {
            lemma_merged_referenced(inst, m, n - 1, r, k);
            let j = choose|j: int| 0 <= j < prev.len() && (#[trigger] prev[j]).1 == merged_row(inst, m, r)[k].0;
            assert(whole[j] == prev[j]);
        }
    } else {
        lemma_merged_referenced(inst, m, n - 1, r, k);
    }
}

/// Each merged column is the end of the substitution chain of one of the entries.
pub proof fn lemma_merge_columns(inst: SpartanInstance, entries: Seq<(usize, FieldElement)>)
    ensures
        forall|k: int|
            0 <= k < merge_resolved(inst, entries).len() ==> exists|j: int|
                0 <= j < entries.len() && #[trigger] merge_resolved(inst, entries)[k].0 == resolved(
                    inst,
                    #[trigger] entries[j].0,
                ),
    decreases entries.len(),
{
    if entries.len() > 0 {
        let prev = entries.drop_last();
        lemma_merge_columns(inst, prev);
        let m = merge_resolved(inst, prev);
        let col = resolved(inst, entries.last().0);
        lemma_position_of(m, col);
        let mm = merge_resolved(inst, entries);
        assert forall|k: int| 0 <= k < mm.len() implies exists|j: int|
            0 <= j < entries.len() && #[trigger] mm[k].0 == resolved(inst, #[trigger] entries[j].0) by {
            if k < m.len() && mm[k].0 == m[k].0 {
                let j = choose|j: int| 0 <= j < prev.len() && #[trigger] m[k].0 == resolved(inst, #[trigger] prev[j].0);
                assert(entries[j] == prev[j]);
            } else {
                assert(mm[k].0 == col);
                assert(entries[entries.len() - 1] == entries.last());
            }
        }
    }
}

/// The live private column numbered `q` after compaction.
pub open spec fn live_column(inst: SpartanInstance, q: int) -> usize {
    choose|c: usize| c < inst.num_vars && is_live(inst, c) && live_before(inst, c as int) == q
}

/// An assignment of the instance with its dead private columns dropped: the columns
/// of the instance that alias removal makes.
pub open spec fn compacted_assignment(inst: SpartanInstance, zr: Seq<int>) -> Seq<int> {
    let nv2 = live_before(inst, inst.num_vars as int);
    Seq::new(
        (nv2 + 1 + inst.num_inputs) as nat,
        |q: int|
            if q < nv2 {
                zr[live_column(inst, q) as int]
            } else {
                zr[q - nv2 + inst.num_vars]
            },
    )
}

/// A live private column keeps its number after compaction as `live_column` reads it.
pub proof fn lemma_live_column(inst: SpartanInstance, c: usize)
    requires
        c < inst.num_vars,
        is_live(inst, c),
    ensures
        live_before(inst, c as int) < live_before(inst, inst.num_vars as int),
        live_column(inst, live_before(inst, c as int) as int) == c,
{
    super::aliases::lemma_live_before_bounded(inst, c + 1, inst.num_vars as int);
    let q = live_before(inst, c as int) as int;
    assert(exists|d: usize| d < inst.num_vars && is_live(inst, d) && live_before(inst, d as int) == q) by {
        assert(c < inst.num_vars && is_live(inst, c) && live_before(inst, c as int) == q);
    }
    let d = live_column(inst, q);
    if d < c {
        super::aliases::lemma_live_before_bounded(inst, d + 1, c as int);
    } else if d > c {
        super::aliases::lemma_live_before_bounded(inst, c + 1, d as int);
    }
}

/// The compacted assignment holds, at the compacted number of each live private
/// column and of each other column, the column's value.
pub proof fn lemma_compacted_value(inst: SpartanInstance, zr: Seq<int>, c: usize)
    requires
        zr.len() == instance_width(inst),
        c < zr.len(),
        c < inst.num_vars ==> is_live(inst, c),
    ensures
        compacted(inst, c) < compacted_assignment(inst, zr).len(),
        compacted_assignment(inst, zr)[compacted(inst, c) as int] == zr[c as int],
{
    super::aliases::lemma_live_before_bounded(inst, 0, inst.num_vars as int);
    if c < inst.num_vars {
        lemma_live_column(inst, c);
    }
}

/// The kept rows before `n` are rows below `n` that alias removal keeps.
pub proof fn lemma_kept_rows_entries(inst: SpartanInstance, n: int)
    requires
        0 <= n,
    ensures
        forall|k: int|
            0 <= k < kept_rows_upto(inst, n).len() ==> 0 <= #[trigger] kept_rows_upto(inst, n)[k] < n
                && is_kept_row(inst, kept_rows_upto(inst, n)[k]),
    decreases n,
{
    if n > 0 {
        lemma_kept_rows_entries(inst, n - 1);
        let prev = kept_rows_upto(inst, n - 1);
        assert forall|k: int| 0 <= k < kept_rows_upto(inst, n).len() implies 0 <= #[trigger] kept_rows_upto(
            inst,
            n,
        )[k] < n && is_kept_row(inst, kept_rows_upto(inst, n)[k]) by {
            if k < prev.len() {
                assert(kept_rows_upto(inst, n)[k] == prev[k]);
            }
        }
    }
}

/// Every compacted private number below the live count belongs to a live column.
pub proof fn lemma_live_numbers_covered(inst: SpartanInstance, n: int, q: int)
    requires
        0 <= n <= inst.num_vars,
        0 <= q < live_before(inst, n),
    ensures
        exists|c: usize| c < n && is_live(inst, c) && live_before(inst, c as int) == q,
    decreases n,
{
    if q < live_before(inst, n - 1) {
        lemma_live_numbers_covered(inst, n - 1, q);
        let c = choose|c: usize| c < n - 1 && is_live(inst, c) && live_before(inst, c as int) == q;
        assert(c < n && is_live(inst, c) && live_before(inst, c as int) == q);
    } else {
        let c = (n - 1) as usize;
        assert(c < n && is_live(inst, c) && live_before(inst, c as int) == q);
    }
}

/// A row of the instance that alias removal makes, under the compacted assignment,
/// has the dot product of the kept row it comes from, modulo ℓ.
pub proof fn lemma_out_row_dot(
    inst: SpartanInstance,
    out: SpartanInstance,
    num_outputs: nat,
    inputs: Seq<FieldElement>,
    zr: Seq<int>,
    q: int,
    w: int,
)
    requires
        instance_fits(inst),
        is_reference(inst, num_outputs, inputs, zr),
        super::aliases::describes_alias_removal(out, inst),
        0 <= q < out.num_cons,
        0 <= w < 3,
    ensures
        row_dot(matrix_view(matrix_of(out, w)), q, compacted_assignment(inst, zr)) % (field_order() as int)
            == row_dot(matrix_view(matrix_of(inst, w)), kept_rows(inst)[q], zr) % (field_order() as int),
{
    let p = field_order() as int;
    let n = inst.num_cons as int;
    let m = matrix_of(inst, w);
    let zc = compacted_assignment(inst, zr);
    let width = instance_width(inst);
    lemma_kept_rows_entries(inst, n);
    let r = kept_rows(inst)[q];
    lemma_matrix_view_valued(matrix_of(out, w));
    assert(valued(matrix_of(out, w)) == substituted(inst, m).map_values(compact_entry(inst)));
    lemma_substituted_dot(inst, m, n, q, zc);
    let entries = row_entries(m, r);
    let merged = merge_resolved(inst, entries);
    let mr = merged_row(inst, m, r);
    lemma_row_entries_fit(m, r, inst.num_cons as nat, width);
    lemma_merge_columns(inst, entries);
    assert forall|k: int| 0 <= k < mr.len() implies zc[compacted(inst, (#[trigger] mr[k]).0) as int] == zr[mr[k].0 as int] by {
        assert(merged.filter(nonzero_entry()).contains(mr[k])) by {
            assert(mr[k] == mr[k]);
        }
        merged.lemma_filter_contains_rev(nonzero_entry(), mr[k]);
        let i = choose|i: int| 0 <= i < merged.len() && merged[i] == mr[k];
        let j = choose|j: int| 0 <= j < entries.len() && #[trigger] merged[i].0 == resolved(inst, #[trigger] entries[j].0);
        lemma_resolved_value(inst, num_outputs, inputs, zr, entries[j].0);
        lemma_merged_referenced(inst, m, n, r, k);
        lemma_compacted_value(inst, zr, mr[k].0);
    }
    lemma_compact_sum(inst, mr, zc, zr);
    lemma_nonzero_sum(merged, zr);
    lemma_merge_sum(inst, entries, zr);
    assert forall|k: int| 0 <= k < entries.len() implies zr[resolved(inst, (#[trigger] entries[k]).0) as int] == zr[entries[k].0 as int] by {
        lemma_resolved_value(inst, num_outputs, inputs, zr, entries[k].0);
    }
    lemma_resolved_sum_plain(inst, entries, zr);
    lemma_row_dot_entries(m, r, zr);
}

/// A row holds when its three dot products are replaced by congruent ones.
pub proof fn lemma_row_holds_congruent(a: int, b: int, c: int, a2: int, b2: int, c2: int)
    requires
        (a * b - c) % (field_order() as int) == 0,
        a % (field_order() as int) == a2 % (field_order() as int),
        b % (field_order() as int) == b2 % (field_order() as int),
        c % (field_order() as int) == c2 % (field_order() as int),
    ensures
        (a2 * b2 - c2) % (field_order() as int) == 0,
{
    let p = field_order() as int;
    vstd::arithmetic::div_mod::lemma_mul_mod_noop(a, b, p);
    vstd::arithmetic::div_mod::lemma_mul_mod_noop(a2, b2, p);
    lemma_sub_mod_noop(a * b, c, p);
    lemma_sub_mod_noop(a2 * b2, c2, p);
}

/// The assignment that alias removal carries a solution to: the solution itself when
/// no row is removed, else the solution with its dead private columns dropped.
pub open spec fn carried_assignment(inst: SpartanInstance, zr: Seq<int>) -> Seq<int> {
    if kept_rows(inst).len() == inst.num_cons {
        zr
    } else {
        compacted_assignment(inst, zr)
    }
}

/// Alias removal keeps every solution: an assignment that satisfies an instance,
/// with the constant 1 and the circuit inputs in place, satisfies the instance that
/// alias removal makes of it once its dead private columns are dropped, and its
/// public I/O is unchanged.
pub proof fn lemma_alias_removal_keeps_solutions(
    inst: SpartanInstance,
    out: SpartanInstance,
    num_outputs: nat,
    inputs: Seq<FieldElement>,
    zr: Seq<int>,
)
    requires
        instance_fits(inst),
        alias_chains_end(inst),
        alias_removal_outcome(out, inst),
        is_reference(inst, num_outputs, inputs, zr),
    ensures
        is_reference(out, num_outputs, inputs, carried_assignment(inst, zr)),
        carried_assignment(inst, zr).subrange(out.num_vars + 1, instance_width(out) as int) == zr.subrange(
            inst.num_vars + 1,
            instance_width(inst) as int,
        ),
{
    let n = inst.num_cons as int;
    super::aliases::lemma_kept_rows_len(inst, n);
    if kept_rows(inst).len() == inst.num_cons {
        assert(carried_assignment(inst, zr) == zr);
    } else {
        let zc = compacted_assignment(inst, zr);
        let nv = inst.num_vars as int;
        let nv2 = live_before(inst, nv);
        let p = field_order() as int;
        super::aliases::lemma_live_before_bounded(inst, 0, nv);
        assert(zc.len() == instance_width(out));
        assert forall|c: int| 0 <= c < zc.len() implies 0 <= #[trigger] zc[c] < field_order() by {
            if c < nv2 {
                lemma_live_numbers_covered(inst, nv, c);
                let d = live_column(inst, c);
                assert(d < nv);
                assert(0 <= zr[d as int] < field_order());
            } else {
                assert(0 <= zr[c - nv2 + nv] < field_order());
            }
        }
        assert(zc[nv2 as int] == zr[nv]);
        assert forall|k: int| 0 <= k < inputs.len() implies zc[out.num_vars + 1 + num_outputs + k] == (
        #[trigger] inputs[k]).value() by {
            assert(zc[nv2 + 1 + num_outputs + k] == zr[nv + 1 + num_outputs + k]);
        }
        assert forall|q: int| 0 <= q < out.num_cons implies #[trigger] row_holds(
            matrix_view(out.A@),
            matrix_view(out.B@),
            matrix_view(out.C@),
            q,
            zc,
        ) by {
            lemma_kept_rows_entries(inst, n);
            let r = kept_rows(inst)[q];
            lemma_out_row_dot(inst, out, num_outputs, inputs, zr, q, 0);
            lemma_out_row_dot(inst, out, num_outputs, inputs, zr, q, 1);
            lemma_out_row_dot(inst, out, num_outputs, inputs, zr, q, 2);
            assert(row_holds(matrix_view(inst.A@), matrix_view(inst.B@), matrix_view(inst.C@), r, zr));
            lemma_row_holds_congruent(
                row_dot(matrix_view(inst.A@), r, zr),
                row_dot(matrix_view(inst.B@), r, zr),
                row_dot(matrix_view(inst.C@), r, zr),
                row_dot(matrix_view(out.A@), q, zc),
                row_dot(matrix_view(out.B@), q, zc),
                row_dot(matrix_view(out.C@), q, zc),
            );
        }
        assert(zc.subrange(out.num_vars + 1, instance_width(out) as int) =~= zr.subrange(
            inst.num_vars + 1,
            instance_width(inst) as int,
        ));
    }
}

} // verus!
