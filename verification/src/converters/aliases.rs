//! Baseline R1CS optimizer: removal of alias constraints by variable substitution.
use super::solver::{
    group_rows, instance_fits, instance_fits_check, instance_width, lemma_row_entries_fit, matrix_fits,
    row_entries, rows_below,
};
use super::spartan::{matrix_canonical, R1CSMatrix, SpartanInstance};
use crate::field::{bytes_value, field_order, FieldElement};
use std::collections::HashMap;
use vstd::prelude::*;

verus! {

broadcast use vstd::std_specs::hash::group_hash_axioms;

/// Whether the three row views form an alias constraint `out * 1 = src`: a single
/// entry in each of A, B and C, every coefficient 1, and B's entry at the constant
/// column `num_vars`.
pub open spec fn is_alias_pattern(
    a: Seq<(usize, FieldElement)>,
    b: Seq<(usize, FieldElement)>,
    c: Seq<(usize, FieldElement)>,
    num_vars: usize,
) -> bool {
    &&& a.len() == 1
    &&& b.len() == 1
    &&& c.len() == 1
    &&& a[0].1.value() == 1
    &&& b[0].1.value() == 1
    &&& c[0].1.value() == 1
    &&& b[0].0 == num_vars
}

/// The substitution that row `r` contributes, `(from, to)`, when it is an alias
/// constraint with a private side: `out → src` when `out` is private, else
/// `src → out` when `src` is private.
pub open spec fn alias_pair(inst: SpartanInstance, r: int) -> Option<(usize, usize)> {
    let a = row_entries(inst.A@, r);
    let b = row_entries(inst.B@, r);
    let c = row_entries(inst.C@, r);
    if is_alias_pattern(a, b, c, inst.num_vars) {
        if a[0].0 < inst.num_vars {
            Some((a[0].0, c[0].0))
        } else if c[0].0 < inst.num_vars {
            Some((c[0].0, a[0].0))
        } else {
            None
        }
    } else {
        None
    }
}

/// The substitution built from the rows before `n`: an alias row adds its pair
/// unless an earlier row already substitutes the same private column (such a row is
/// kept, so the relation it states is not lost).
pub open spec fn substitution_upto(inst: SpartanInstance, n: int) -> Map<usize, usize>
    decreases n,
{
    if n <= 0 {
        Map::empty()
    } else {
        let m = substitution_upto(inst, n - 1);
        match alias_pair(inst, n - 1) {
            Some(p) => if m.contains_key(p.0) {
                m
            } else {
                m.insert(p.0, p.1)
            },
            None => m,
        }
    }
}

/// The substitution pair that row `r` adds: its alias pair, unless an earlier row
/// already substitutes the same private column.
pub open spec fn accepted_pair(inst: SpartanInstance, r: int) -> Option<(usize, usize)> {
    match alias_pair(inst, r) {
        Some(p) => if substitution_upto(inst, r).contains_key(p.0) {
            None
        } else {
            Some(p)
        },
        None => None,
    }
}

/// The substitution of all alias rows.
pub open spec fn substitution(inst: SpartanInstance) -> Map<usize, usize> {
    substitution_upto(inst, inst.num_cons as int)
}

/// Following the substitution `n` steps from `k` (staying put on a column it does
/// not map).
pub open spec fn follow(m: Map<usize, usize>, k: usize, n: nat) -> usize
    decreases n,
{
    if n == 0 {
        k
    } else {
        let p = follow(m, k, (n - 1) as nat);
        if m.contains_key(p) {
            m[p]
        } else {
            p
        }
    }
}

/// The end of the substitution chain from column `c`.
pub open spec fn resolved(inst: SpartanInstance, c: usize) -> usize {
    follow(substitution(inst), c, substitution(inst).dom().len())
}

/// Every substitution chain ends at a column that the substitution does not map
/// (the substitution has no cycle).
pub open spec fn alias_chains_end(inst: SpartanInstance) -> bool {
    forall|c: usize| !substitution(inst).contains_key(#[trigger] resolved(inst, c))
}

/// Some row is an alias row with a private side.
pub open spec fn has_alias_row(inst: SpartanInstance) -> bool {
    exists|r: int| 0 <= r < inst.num_cons && #[trigger] alias_pair(inst, r) is Some
}

/// No column is the private side of two alias rows.
pub open spec fn alias_keys_distinct(inst: SpartanInstance) -> bool {
    forall|r1: int, r2: int|
        #![trigger alias_pair(inst, r1), alias_pair(inst, r2)]
        0 <= r1 < r2 < inst.num_cons && alias_pair(inst, r1) is Some && alias_pair(inst, r2) is Some
            ==> alias_pair(inst, r1)->Some_0.0 != alias_pair(inst, r2)->Some_0.0
}

/// Every key of the substitution built from the rows before `n` is the private
/// side of the alias pair of one of those rows.
pub proof fn lemma_substitution_keys(inst: SpartanInstance, n: int)
    ensures
        forall|k: usize|
            #[trigger] substitution_upto(inst, n).contains_key(k) ==> exists|r: int|
                0 <= r < n && #[trigger] alias_pair(inst, r) is Some && alias_pair(inst, r)->Some_0.0 == k,
    decreases n,
{
    if n > 0 {
        lemma_substitution_keys(inst, n - 1);
        let prev = substitution_upto(inst, n - 1);
        assert forall|k: usize| #[trigger] substitution_upto(inst, n).contains_key(k) implies exists|r: int|
            0 <= r < n && #[trigger] alias_pair(inst, r) is Some && alias_pair(inst, r)->Some_0.0 == k by {
            if prev.contains_key(k) {
                let r = choose|r: int| 0 <= r < n - 1 && #[trigger] alias_pair(inst, r) is Some && alias_pair(inst, r)->Some_0.0 == k;
                assert(0 <= r < n && alias_pair(inst, r) is Some && alias_pair(inst, r)->Some_0.0 == k);
            } else {
                assert(alias_pair(inst, n - 1) is Some && alias_pair(inst, n - 1)->Some_0.0 == k);
            }
        }
    }
}

/// With distinct keys every alias row adds its pair.
pub proof fn lemma_distinct_accepted(inst: SpartanInstance, r: int)
    requires
        alias_keys_distinct(inst),
        0 <= r < inst.num_cons,
    ensures
        accepted_pair(inst, r) == alias_pair(inst, r),
{
    lemma_substitution_keys(inst, r);
    if let Some(p) = alias_pair(inst, r) {
        if substitution_upto(inst, r).contains_key(p.0) {
            let r1 = choose|r1: int| 0 <= r1 < r && #[trigger] alias_pair(inst, r1) is Some && alias_pair(inst, r1)->Some_0.0 == p.0;
            assert(alias_pair(inst, r1)->Some_0.0 != alias_pair(inst, r)->Some_0.0);
        }
    }
}

/// Row `r` is kept: it adds no pair to the substitution.
pub open spec fn is_kept_row(inst: SpartanInstance, r: int) -> bool {
    accepted_pair(inst, r) is None
}

/// The kept rows before `n`, in order.
pub open spec fn kept_rows_upto(inst: SpartanInstance, n: int) -> Seq<int>
    decreases n,
{
    if n <= 0 {
        seq![]
    } else if is_kept_row(inst, n - 1) {
        kept_rows_upto(inst, n - 1).push(n - 1)
    } else {
        kept_rows_upto(inst, n - 1)
    }
}

/// The kept rows, in order.
pub open spec fn kept_rows(inst: SpartanInstance) -> Seq<int> {
    kept_rows_upto(inst, inst.num_cons as int)
}

/// Position of column `c` in a list of merged entries, if present.
pub open spec fn position_of(s: Seq<(usize, nat)>, c: usize) -> Option<int>
    decreases s.len(),
{
    if s.len() == 0 {
        None
    } else if s.last().0 == c {
        Some(s.len() - 1)
    } else {
        position_of(s.drop_last(), c)
    }
}

/// Merges row entries after the substitution: each resolved column appears once, at
/// its first occurrence, with the sum of its coefficients modulo ℓ.
pub open spec fn merge_resolved(inst: SpartanInstance, entries: Seq<(usize, FieldElement)>) -> Seq<(usize, nat)>
    decreases entries.len(),
{
    if entries.len() == 0 {
        seq![]
    } else {
        let m = merge_resolved(inst, entries.drop_last());
        let col = resolved(inst, entries.last().0);
        let v = entries.last().1.value();
        match position_of(m, col) {
            Some(p) => m.update(p, (col, (m[p].1 + v) % field_order())),
            None => m.push((col, v % field_order())),
        }
    }
}

/// The entries of row `r` of `m` after substitution and merging, zero sums dropped.
pub open spec fn merged_row(inst: SpartanInstance, m: Seq<(usize, usize, [u8; 32])>, r: int) -> Seq<(usize, nat)> {
    merge_resolved(inst, row_entries(m, r)).filter(nonzero_entry())
}

/// Whether a merged entry has a nonzero coefficient.
pub open spec fn nonzero_entry() -> spec_fn((usize, nat)) -> bool {
    |e: (usize, nat)| e.1 != 0
}

/// Tags a merged entry with its row.
pub open spec fn at_row(row: usize) -> spec_fn((usize, nat)) -> (usize, usize, nat) {
    |e: (usize, nat)| (row, e.0, e.1)
}

/// Renumbers the column of an entry after compaction.
pub open spec fn compact_entry(inst: SpartanInstance) -> spec_fn((usize, usize, nat)) -> (usize, usize, nat) {
    |e: (usize, usize, nat)| (e.0, compacted(inst, e.1), e.2)
}


/// The entries that the kept rows before `n` contribute to `m` after substitution and
/// merging, as `(new row, resolved column, coefficient)`.
pub open spec fn substituted_upto(inst: SpartanInstance, m: Seq<(usize, usize, [u8; 32])>, n: int) -> Seq<(usize, usize, nat)>
    decreases n,
{
    if n <= 0 {
        seq![]
    } else {
        let prev = substituted_upto(inst, m, n - 1);
        if is_kept_row(inst, n - 1) {
            let row = kept_rows_upto(inst, n - 1).len() as usize;
            prev + merged_row(inst, m, n - 1).map_values(at_row(row))
        } else {
            prev
        }
    }
}

/// All the entries of `m` after substitution and merging.
pub open spec fn substituted(inst: SpartanInstance, m: Seq<(usize, usize, [u8; 32])>) -> Seq<(usize, usize, nat)> {
    substituted_upto(inst, m, inst.num_cons as int)
}

/// Some entry of `s` sits at column `c`.
pub open spec fn references_column<T>(s: Seq<(usize, usize, T)>, c: usize) -> bool {
    exists|k: int| 0 <= k < s.len() && (#[trigger] s[k]).1 == c
}

/// Column `c` is private and still referenced after substitution.
pub open spec fn is_live(inst: SpartanInstance, c: usize) -> bool {
    &&& c < inst.num_vars
    &&& references_column(substituted(inst, inst.A@), c) || references_column(substituted(inst, inst.B@), c)
        || references_column(substituted(inst, inst.C@), c)
}

/// Number of live private columns below `c`.
pub open spec fn live_before(inst: SpartanInstance, c: int) -> nat
    decreases c,
{
    if c <= 0 {
        0
    } else {
        live_before(inst, c - 1) + if is_live(inst, (c - 1) as usize) {
            1nat
        } else {
            0nat
        }
    }
}

/// New column of old column `c` after compaction: live private columns are numbered
/// in order, the constant and the public columns shift down past the dead ones.
pub open spec fn compacted(inst: SpartanInstance, c: usize) -> usize {
    if c < inst.num_vars {
        live_before(inst, c as int) as usize
    } else {
        (c - inst.num_vars + live_before(inst, inst.num_vars as int)) as usize
    }
}

/// Entries with their coefficient taken as an integer.
pub open spec fn valued(m: Seq<(usize, usize, [u8; 32])>) -> Seq<(usize, usize, nat)> {
    m.map_values(|e: (usize, usize, [u8; 32])| (e.0, e.1, bytes_value(e.2)))
}

/// The instance after alias removal, as the library specifies it.
pub open spec fn describes_alias_removal(out: SpartanInstance, inst: SpartanInstance) -> bool {
    &&& out.num_inputs == inst.num_inputs
    &&& out.num_cons == kept_rows(inst).len()
    &&& out.num_vars == live_before(inst, inst.num_vars as int)
    &&& valued(out.A@) == substituted(inst, inst.A@).map_values(compact_entry(inst))
    &&& valued(out.B@) == substituted(inst, inst.B@).map_values(compact_entry(inst))
    &&& valued(out.C@) == substituted(inst, inst.C@).map_values(compact_entry(inst))
    &&& matrix_canonical(out.A@)
    &&& matrix_canonical(out.B@)
    &&& matrix_canonical(out.C@)
}


/// `position_of` finds the column where it is, and only there.
pub proof fn lemma_position_of(s: Seq<(usize, nat)>, c: usize)
    ensures
        position_of(s, c) matches Some(p) ==> 0 <= p < s.len() && s[p].0 == c,
        position_of(s, c) is None ==> forall|i: int| 0 <= i < s.len() ==> (#[trigger] s[i]).0 != c,
    decreases s.len(),
{
    if s.len() > 0 {
        lemma_position_of(s.drop_last(), c);
        if position_of(s, c) is None {
            assert forall|i: int| 0 <= i < s.len() implies (#[trigger] s[i]).0 != c by {
                if i < s.len() - 1 {
                    assert(s.drop_last()[i] == s[i]);
                }
            }
        }
    }
}

/// Columns of a merged row are pairwise distinct.
pub open spec fn distinct_columns(s: Seq<(usize, nat)>) -> bool {
    forall|i: int, j: int| 0 <= i < j < s.len() ==> (#[trigger] s[i]).0 != (#[trigger] s[j]).0
}

pub proof fn lemma_merge_distinct(inst: SpartanInstance, entries: Seq<(usize, FieldElement)>)
    ensures
        distinct_columns(merge_resolved(inst, entries)),
    decreases entries.len(),
{
    if entries.len() > 0 {
        let m = merge_resolved(inst, entries.drop_last());
        let col = resolved(inst, entries.last().0);
        lemma_merge_distinct(inst, entries.drop_last());
        lemma_position_of(m, col);
    }
}

/// In a list with distinct columns, the index where column `c` sits is its position.
pub proof fn lemma_position_unique(s: Seq<(usize, nat)>, c: usize, j: int)
    requires
        distinct_columns(s),
        0 <= j < s.len(),
        s[j].0 == c,
    ensures
        position_of(s, c) == Some(j),
{
    lemma_position_of(s, c);
    if let Some(p) = position_of(s, c) {
        if p != j {
            if p < j {
                assert(s[p].0 != s[j].0);
            } else {
                assert(s[j].0 != s[p].0);
            }
        }
    }
}

/// Once the chain leaves the substitution's domain it stays put.
pub proof fn lemma_follow_fixed(m: Map<usize, usize>, k: usize, n: nat, n2: nat)
    requires
        !m.contains_key(follow(m, k, n)),
        n <= n2,
    ensures
        follow(m, k, n2) == follow(m, k, n),
    decreases n2 - n,
{
    if n < n2 {
        lemma_follow_fixed(m, k, n, (n2 - 1) as nat);
    }
}

/// The end of the substitution chain from column `c`.
fn resolve(sub: &HashMap<usize, usize>, c: usize, inst: Ghost<SpartanInstance>) -> (r: usize)
    requires
        sub@ == substitution(inst@),
    ensures
        r == resolved(inst@, c),
{
    let len = sub.len();
    let mut cur = c;
    let mut steps: usize = 0;
    while steps < len
        invariant
            sub@ == substitution(inst@),
            len == sub@.dom().len(),
            steps <= len,
            cur == follow(sub@, c, steps as nat),
        decreases len - steps,
    {
        match sub.get(&cur) {
            Some(t) => {
                cur = *t;
            },
            None => {
                proof {
                    lemma_follow_fixed(sub@, c, steps as nat, len as nat);
                }
                return cur;
            },
        }
        steps = steps + 1;
    }
    cur
}

/// Values of merged entries.
pub open spec fn merged_view(s: Seq<(usize, FieldElement)>) -> Seq<(usize, nat)> {
    s.map_values(|e: (usize, FieldElement)| (e.0, e.1.value()))
}

/// Appends to `dest`, at row `new_row`, the entries of `entries` after substitution
/// and merging, zero sums dropped.
fn emit_row(
    entries: &Vec<(usize, FieldElement)>,
    dest: &mut R1CSMatrix,
    new_row: usize,
    sub: &HashMap<usize, usize>,
    inst: Ghost<SpartanInstance>,
)
    requires
        sub@ == substitution(inst@),
        forall|k: int| 0 <= k < entries@.len() ==> (#[trigger] entries@[k]).1.is_canonical(),
        matrix_canonical(old(dest)@),
    ensures
        matrix_canonical(final(dest)@),
        valued(final(dest)@) == valued(old(dest)@) + merge_resolved(inst@, entries@).filter(
            nonzero_entry(),
        ).map_values(at_row(new_row)),
{
    let mut merged: Vec<(usize, FieldElement)> = Vec::new();
    let mut k: usize = 0;
    while k < entries.len()
        invariant
            sub@ == substitution(inst@),
            k <= entries.len(),
            forall|q: int| 0 <= q < entries@.len() ==> (#[trigger] entries@[q]).1.is_canonical(),
            forall|q: int| 0 <= q < merged@.len() ==> (#[trigger] merged@[q]).1.is_canonical(),
            merged_view(merged@) == merge_resolved(inst@, entries@.take(k as int)),
        decreases entries.len() - k,
    {
        let ghost prev = merged_view(merged@);
        proof {
            assert(entries@.take(k + 1).drop_last() =~= entries@.take(k as int));
            lemma_merge_distinct(inst@, entries@.take(k as int));
        }
        let (col, val) = entries[k];
        let new_col = resolve(sub, col, inst);
        let mut found: Option<usize> = None;
        let mut j: usize = 0;
        while j < merged.len()
            invariant_except_break
                found is None,
                forall|q: int| 0 <= q < j ==> (#[trigger] merged@[q]).0 != new_col,
            invariant
                j <= merged.len(),
                prev == merged_view(merged@),
            ensures
                found matches Some(p) ==> p < merged.len() && merged@[p as int].0 == new_col,
                found is None ==> forall|q: int| 0 <= q < merged@.len() ==> (#[trigger] merged@[q]).0 != new_col,
            decreases merged.len() - j,
        {
            if merged[j].0 == new_col {
                found = Some(j);
                break;
            }
            j = j + 1;
        }
        match found {
            Some(p) => {
                proof {
                    assert(prev[p as int].0 == new_col);
                    lemma_position_unique(prev, new_col, p as int);
                }
                let sum = merged[p].1.add(&val);
                merged.set(p, (new_col, sum));
                proof {
                    assert(merged_view(merged@) =~= prev.update(p as int, (new_col, (prev[p as int].1 + val.value()) % field_order())));
                }
            },
            None => {
                proof {
                    lemma_position_of(prev, new_col);
                    if let Some(q) = position_of(prev, new_col) {
                        assert(merged@[q].0 == prev[q].0);
                        assert(false);
                    }
                }
                let zero = FieldElement::zero();
                let v = zero.add(&val);
                merged.push((new_col, v));
                proof {
                    assert(merged_view(merged@) =~= prev.push((new_col, val.value() % field_order())));
                }
            },
        }
        k = k + 1;
    }
    proof {
        assert(entries@.take(k as int) =~= entries@);
    }
    let ghost full = merged_view(merged@);
    let ghost d0 = valued(dest@);
    let mut t: usize = 0;
    while t < merged.len()
        invariant
            t <= merged.len(),
            full == merged_view(merged@),
            forall|q: int| 0 <= q < merged@.len() ==> (#[trigger] merged@[q]).1.is_canonical(),
            matrix_canonical(dest@),
            valued(dest@) == d0 + full.take(t as int).filter(nonzero_entry()).map_values(
                at_row(new_row),
            ),
        decreases merged.len() - t,
    {
        let ghost before = valued(dest@);
        proof {
            reveal_with_fuel(Seq::filter, 1);
            assert(full.take(t + 1).drop_last() =~= full.take(t as int));
        }
        let (col, val) = merged[t];
        if !val.is_zero() {
            dest.push((new_row, col, val.to_bytes()));
            proof {
                let f = full.take(t as int).filter(nonzero_entry());
                assert(f.push(full[t as int]).map_values(at_row(new_row)) =~= f.map_values(
                    at_row(new_row),
                ).push((new_row, col, val.value())));
                assert(valued(dest@) =~= before.push((new_row, col, val.value())));
            }
        }
        t = t + 1;
    }
    proof {
        assert(full.take(t as int) =~= full);
    }
}


/// Finds the alias rows and builds the substitution.
fn detect_aliases(
    inst: &SpartanInstance,
    a_rows: &Vec<Vec<(usize, FieldElement)>>,
    b_rows: &Vec<Vec<(usize, FieldElement)>>,
    c_rows: &Vec<Vec<(usize, FieldElement)>>,
) -> (res: (HashMap<usize, usize>, Vec<bool>))
    requires
        instance_fits(*inst),
        a_rows.len() == inst.num_cons,
        b_rows.len() == inst.num_cons,
        c_rows.len() == inst.num_cons,
        forall|r: int| 0 <= r < inst.num_cons ==> (#[trigger] a_rows[r])@ == row_entries(inst.A@, r),
        forall|r: int| 0 <= r < inst.num_cons ==> (#[trigger] b_rows[r])@ == row_entries(inst.B@, r),
        forall|r: int| 0 <= r < inst.num_cons ==> (#[trigger] c_rows[r])@ == row_entries(inst.C@, r),
    ensures
        res.0@ == substitution(*inst),
        res.1.len() == inst.num_cons,
        forall|r: int| 0 <= r < inst.num_cons ==> #[trigger] res.1@[r] == !is_kept_row(*inst, r),
{
    let one = FieldElement::one();
    let num_vars = inst.num_vars;
    let mut sub: HashMap<usize, usize> = HashMap::new();
    let mut removed: Vec<bool> = Vec::new();
    let mut row: usize = 0;
    while row < inst.num_cons
        invariant
            instance_fits(*inst),
            num_vars == inst.num_vars,
            one.is_canonical(),
            one.value() == 1,
            row <= inst.num_cons,
            a_rows.len() == inst.num_cons,
            b_rows.len() == inst.num_cons,
            c_rows.len() == inst.num_cons,
            forall|r: int| 0 <= r < inst.num_cons ==> (#[trigger] a_rows[r])@ == row_entries(inst.A@, r),
            forall|r: int| 0 <= r < inst.num_cons ==> (#[trigger] b_rows[r])@ == row_entries(inst.B@, r),
            forall|r: int| 0 <= r < inst.num_cons ==> (#[trigger] c_rows[r])@ == row_entries(inst.C@, r),
            sub@ == substitution_upto(*inst, row as int),
            removed.len() == row,
            forall|r: int| 0 <= r < row ==> #[trigger] removed@[r] == !is_kept_row(*inst, r),
        decreases inst.num_cons - row,
    {
        proof {
            lemma_row_entries_fit(inst.A@, row as int, inst.num_cons as nat, instance_width(*inst));
            lemma_row_entries_fit(inst.B@, row as int, inst.num_cons as nat, instance_width(*inst));
            lemma_row_entries_fit(inst.C@, row as int, inst.num_cons as nat, instance_width(*inst));
        }
        let a = &a_rows[row];
        let b = &b_rows[row];
        let c = &c_rows[row];
        let mut is_removed = false;
        if a.len() == 1 && b.len() == 1 && c.len() == 1 {
            let (a_col, a_val) = a[0];
            let (b_col, b_val) = b[0];
            let (c_col, c_val) = c[0];
            if a_val.equals(&one) && b_val.equals(&one) && c_val.equals(&one) && b_col == num_vars {
                if a_col < num_vars {
                    if !sub.contains_key(&a_col) {
                        sub.insert(a_col, c_col);
                        is_removed = true;
                    }
                } else if c_col < num_vars {
                    if !sub.contains_key(&c_col) {
                        sub.insert(c_col, a_col);
                        is_removed = true;
                    }
                }
            }
        }
        removed.push(is_removed);
        row = row + 1;
    }
    (sub, removed)
}

/// Marks the private columns that the entries of `m` reference.
fn mark_live(m: &R1CSMatrix, live: &mut Vec<bool>)
    ensures
        final(live).len() == old(live).len(),
        forall|c: int|
            0 <= c < old(live).len() ==> #[trigger] final(live)@[c] == (old(live)@[c] || references_column(
                m@,
                c as usize,
            )),
{
    let ghost l0 = live@;
    let mut k: usize = 0;
    while k < m.len()
        invariant
            k <= m.len(),
            live.len() == l0.len(),
            forall|c: int|
                0 <= c < l0.len() ==> #[trigger] live@[c] == (l0[c] || exists|q: int|
                    0 <= q < k && (#[trigger] m@[q]).1 == c),
        decreases m.len() - k,
    {
        let col = m[k].1;
        if col < live.len() {
            live.set(col, true);
        }
        proof {
            assert forall|c: int| 0 <= c < l0.len() implies #[trigger] live@[c] == (l0[c] || exists|q: int|
                0 <= q < k + 1 && (#[trigger] m@[q]).1 == c) by {
                if c == col {
                    assert(m@[k as int].1 == c);
                }
                if exists|q: int| 0 <= q < k + 1 && (#[trigger] m@[q]).1 == c {
                    let q = choose|q: int| 0 <= q < k + 1 && (#[trigger] m@[q]).1 == c;
                    if q < k {
                    } else {
                        assert(c == col);
                    }
                }
            }
        }
        k = k + 1;
    }
}

pub proof fn lemma_live_before_bounded(inst: SpartanInstance, a: int, b: int)
    requires
        0 <= a <= b,
    ensures
        live_before(inst, b) <= live_before(inst, a) + (b - a),
        live_before(inst, a) <= live_before(inst, b),
    decreases b - a,
{
    if a < b {
        lemma_live_before_bounded(inst, a, b - 1);
    }
}

/// Renumbers the columns of `m` after compaction.
fn remap_columns(m: &mut R1CSMatrix, rank: &Vec<usize>, num_vars: usize, inst: Ghost<SpartanInstance>)
    requires
        num_vars == inst@.num_vars,
        rank.len() == num_vars + 1,
        forall|c: int| 0 <= c <= num_vars ==> #[trigger] rank@[c] == live_before(inst@, c),
        matrix_canonical(old(m)@),
    ensures
        matrix_canonical(final(m)@),
        valued(final(m)@) == valued(old(m)@).map_values(compact_entry(inst@)),
{
    let ghost v0 = valued(m@);
    let new_num_vars = rank[num_vars];
    proof {
        lemma_live_before_bounded(inst@, 0, num_vars as int);
    }
    let mut k: usize = 0;
    while k < m.len()
        invariant
            k <= m.len(),
            v0.len() == m@.len(),
            num_vars == inst@.num_vars,
            rank.len() == num_vars + 1,
            forall|c: int| 0 <= c <= num_vars ==> #[trigger] rank@[c] == live_before(inst@, c),
            new_num_vars == live_before(inst@, num_vars as int),
            new_num_vars <= num_vars,
            matrix_canonical(m@),
            forall|q: int| 0 <= q < k ==> #[trigger] valued(m@)[q] == (v0[q].0, compacted(inst@, v0[q].1), v0[q].2),
            forall|q: int| k <= q < m@.len() ==> #[trigger] valued(m@)[q] == v0[q],
        decreases m.len() - k,
    {
        let (row, col, bytes) = m[k];
        let new_col = if col < num_vars {
            rank[col]
        } else {
            col - num_vars + new_num_vars
        };
        let ghost before = valued(m@);
        assert(before[k as int] == v0[k as int]);
        assert(before[k as int] == (row, col, bytes_value(bytes)));
        m.set(k, (row, new_col, bytes));
        proof {
            assert(new_col == compacted(inst@, col));
            assert(valued(m@) =~= before.update(k as int, (row, new_col, bytes_value(bytes))));
            assert forall|q: int| 0 <= q < k + 1 implies #[trigger] valued(m@)[q] == (v0[q].0, compacted(inst@, v0[q].1), v0[q].2) by {
                if q < k {
                    assert(valued(m@)[q] == before[q]);
                }
            }
        }
        k = k + 1;
    }
    proof {
        assert(valued(m@) =~= v0.map_values(compact_entry(inst@)));
    }
}

/// An exact copy of a matrix.
fn copy_matrix(m: &R1CSMatrix) -> (c: R1CSMatrix)
    ensures
        c@ == m@,
{
    let mut c: R1CSMatrix = Vec::new();
    let mut k: usize = 0;
    while k < m.len()
        invariant
            k <= m.len(),
            c@ == m@.take(k as int),
        decreases m.len() - k,
    {
        c.push(m[k]);
        assert(c@ =~= m@.take(k + 1));
        k = k + 1;
    }
    assert(m@.take(k as int) =~= m@);
    c
}


pub proof fn lemma_kept_rows_len(inst: SpartanInstance, n: int)
    requires
        0 <= n,
    ensures
        kept_rows_upto(inst, n).len() <= n,
        kept_rows_upto(inst, n).len() == n <==> forall|r: int| 0 <= r < n ==> #[trigger] is_kept_row(inst, r),
    decreases n,
{
    if n > 0 {
        lemma_kept_rows_len(inst, n - 1);
        if kept_rows_upto(inst, n).len() == n {
            assert forall|r: int| 0 <= r < n implies #[trigger] is_kept_row(inst, r) by {
                if r < n - 1 {
                    assert(kept_rows_upto(inst, n - 1).len() == n - 1);
                }
            }
        }
    }
}

/// A column of the substituted entries is referenced exactly where it is referenced
/// in a matrix whose values are those entries.
proof fn lemma_valued_columns(m: Seq<(usize, usize, [u8; 32])>, q: usize)
    ensures
        references_column(valued(m), q) == references_column(m, q),
{
    let v = valued(m);
    if references_column(m, q) {
        let k = choose|k: int| 0 <= k < m.len() && (#[trigger] m[k]).1 == q;
        assert(v[k].1 == q);
    }
    if references_column(v, q) {
        let k = choose|k: int| 0 <= k < v.len() && (#[trigger] v[k]).1 == q;
        assert(m[k].1 == q);
    }
}

/// The result of alias removal: without an alias row the instance unchanged, else
/// the substituted, merged and compacted instance.
pub open spec fn alias_removal_outcome(out: SpartanInstance, inst: SpartanInstance) -> bool {
    &&& kept_rows(inst).len() == inst.num_cons ==> {
        &&& out.num_cons == inst.num_cons
        &&& out.num_vars == inst.num_vars
        &&& out.num_inputs == inst.num_inputs
        &&& out.A@ == inst.A@
        &&& out.B@ == inst.B@
        &&& out.C@ == inst.C@
    }
    &&& kept_rows(inst).len() < inst.num_cons ==> describes_alias_removal(out, inst)
}

/// Removes alias constraints from an R1CS instance by variable substitution.
///
/// An alias row has the form `out * 1 = src`: one entry of coefficient 1 in each of
/// A, B and C, with B's entry at the constant column. When one side is private, and
/// no earlier alias row already substitutes that column, the row is removed and the
/// column is substituted by the other side everywhere (chains of substitutions are
/// followed to their end); an alias row on an already substituted column is kept,
/// with its columns substituted, so the relation it states stays. Entries of a row that land
/// on the same column are merged and zero sums dropped; then the private columns
/// still referenced are renumbered in order, so `num_vars` shrinks. Without any alias
/// row, the instance is returned unchanged, whatever its entries hold.
pub fn remove_aliases(instance: &SpartanInstance) -> (out: SpartanInstance)
    requires
        rows_below(instance.A@, instance.num_cons as nat),
        rows_below(instance.B@, instance.num_cons as nat),
        rows_below(instance.C@, instance.num_cons as nat),
        has_alias_row(*instance) ==> instance_fits(*instance),
        alias_chains_end(*instance),
    ensures
        alias_removal_outcome(out, *instance),
        out.num_cons <= instance.num_cons,
        out.num_vars <= instance.num_vars,
        out.num_inputs == instance.num_inputs,
{
    let ghost inst = *instance;
    if !instance_fits_check(instance) {
        proof {
            assert forall|q: int| 0 <= q < inst.num_cons implies #[trigger] is_kept_row(inst, q) by {
                assert(alias_pair(inst, q) is None);
            }
            lemma_kept_rows_len(inst, inst.num_cons as int);
        }
        return SpartanInstance {
            num_cons: instance.num_cons,
            num_vars: instance.num_vars,
            num_inputs: instance.num_inputs,
            A: copy_matrix(&instance.A),
            B: copy_matrix(&instance.B),
            C: copy_matrix(&instance.C),
        };
    }
    let num_cons = instance.num_cons;
    let num_vars = instance.num_vars;
    let a_rows = group_rows(&instance.A, num_cons);
    let b_rows = group_rows(&instance.B, num_cons);
    let c_rows = group_rows(&instance.C, num_cons);
    let (sub, removed) = detect_aliases(instance, &a_rows, &b_rows, &c_rows);

    let mut any_removed = false;
    let mut r: usize = 0;
    while r < num_cons
        invariant
            r <= num_cons,
            num_cons == inst.num_cons,
            removed.len() == num_cons,
            forall|q: int| 0 <= q < num_cons ==> #[trigger] removed@[q] == !is_kept_row(inst, q),
            !any_removed ==> forall|q: int| 0 <= q < r ==> #[trigger] is_kept_row(inst, q),
            any_removed ==> exists|q: int| 0 <= q < r && !#[trigger] is_kept_row(inst, q),
        decreases num_cons - r,
    {
        if removed[r] {
            any_removed = true;
        }
        r = r + 1;
    }
    proof {
        lemma_kept_rows_len(inst, num_cons as int);
    }
    if !any_removed {
        return SpartanInstance {
            num_cons: instance.num_cons,
            num_vars: instance.num_vars,
            num_inputs: instance.num_inputs,
            A: copy_matrix(&instance.A),
            B: copy_matrix(&instance.B),
            C: copy_matrix(&instance.C),
        };
    }

    // Surviving rows, substituted and merged.
    let mut new_a: R1CSMatrix = Vec::new();
    let mut new_b: R1CSMatrix = Vec::new();
    let mut new_c: R1CSMatrix = Vec::new();
    let mut new_row: usize = 0;
    let mut row: usize = 0;
    while row < num_cons
        invariant
            inst == *instance,
            instance_fits(inst),
            num_cons == inst.num_cons,
            row <= num_cons,
            sub@ == substitution(inst),
            removed.len() == num_cons,
            forall|q: int| 0 <= q < num_cons ==> #[trigger] removed@[q] == !is_kept_row(inst, q),
            a_rows.len() == num_cons,
            b_rows.len() == num_cons,
            c_rows.len() == num_cons,
            forall|q: int| 0 <= q < num_cons ==> (#[trigger] a_rows[q])@ == row_entries(inst.A@, q),
            forall|q: int| 0 <= q < num_cons ==> (#[trigger] b_rows[q])@ == row_entries(inst.B@, q),
            forall|q: int| 0 <= q < num_cons ==> (#[trigger] c_rows[q])@ == row_entries(inst.C@, q),
            new_row == kept_rows_upto(inst, row as int).len(),
            new_row <= row,
            matrix_canonical(new_a@),
            matrix_canonical(new_b@),
            matrix_canonical(new_c@),
            valued(new_a@) == substituted_upto(inst, inst.A@, row as int),
            valued(new_b@) == substituted_upto(inst, inst.B@, row as int),
            valued(new_c@) == substituted_upto(inst, inst.C@, row as int),
        decreases num_cons - row,
    {
        proof {
            lemma_kept_rows_len(inst, row as int + 1);
        }
        if !removed[row] {
            proof {
                lemma_row_entries_fit(inst.A@, row as int, inst.num_cons as nat, instance_width(inst));
                lemma_row_entries_fit(inst.B@, row as int, inst.num_cons as nat, instance_width(inst));
                lemma_row_entries_fit(inst.C@, row as int, inst.num_cons as nat, instance_width(inst));
            }
            emit_row(&a_rows[row], &mut new_a, new_row, &sub, Ghost(inst));
            emit_row(&b_rows[row], &mut new_b, new_row, &sub, Ghost(inst));
            emit_row(&c_rows[row], &mut new_c, new_row, &sub, Ghost(inst));
            new_row = new_row + 1;
        }
        row = row + 1;
    }

    // Private columns still referenced, and their new numbers.
    let mut live: Vec<bool> = Vec::new();
    let mut c: usize = 0;
    while c < num_vars
        invariant
            c <= num_vars,
            live.len() == c,
            forall|q: int| 0 <= q < c ==> !#[trigger] live@[q],
        decreases num_vars - c,
    {
        live.push(false);
        c = c + 1;
    }
    mark_live(&new_a, &mut live);
    mark_live(&new_b, &mut live);
    mark_live(&new_c, &mut live);
    proof {
        assert forall|q: int| 0 <= q < num_vars implies #[trigger] live@[q] == is_live(inst, q as usize) by {
            lemma_valued_columns(new_a@, q as usize);
            lemma_valued_columns(new_b@, q as usize);
            lemma_valued_columns(new_c@, q as usize);
        }
    }
    let mut rank: Vec<usize> = Vec::new();
    rank.push(0);
    let mut c: usize = 0;
    while c < num_vars
        invariant
            c <= num_vars,
            num_vars == inst.num_vars,
            live.len() == num_vars,
            forall|q: int| 0 <= q < num_vars ==> #[trigger] live@[q] == is_live(inst, q as usize),
            rank.len() == c + 1,
            forall|q: int| 0 <= q <= c ==> #[trigger] rank@[q] == live_before(inst, q),
            rank@[c as int] <= c,
        decreases num_vars - c,
    {
        let next = if live[c] {
            rank[c] + 1
        } else {
            rank[c]
        };
        rank.push(next);
        c = c + 1;
    }
    remap_columns(&mut new_a, &rank, num_vars, Ghost(inst));
    remap_columns(&mut new_b, &rank, num_vars, Ghost(inst));
    remap_columns(&mut new_c, &rank, num_vars, Ghost(inst));
    proof {
        lemma_live_before_bounded(inst, 0, num_vars as int);
        lemma_kept_rows_len(inst, num_cons as int);
    }
    SpartanInstance {
        num_cons: new_row,
        num_vars: rank[num_vars],
        num_inputs: instance.num_inputs,
        A: new_a,
        B: new_b,
        C: new_c,
    }
}

} // verus!
