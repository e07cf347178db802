//! Eviction ordering: the snapshot records and the strategy-directed sort.
//!
//! A cleanup pass first snapshots every entry into a [`Candidate`], then
//! sorts the snapshot ascending by the chosen [`CleanseStrategy`]. The sort
//! is an insertion sort that keeps equal-sorting records in their snapshot
//! order (the snapshot order is the index's insertion order), so repeated
//! passes over unchanged data select the same records: [`sort_cands`] is the
//! mathematical statement of exactly that stable order.

use crate::cache::CleanseStrategy;
use vstd::prelude::*;

verus! {

/// The mathematical value of one snapshot record.
pub struct CandView {
    /// The entry's key.
    pub key: Seq<char>,
    /// The entry's read count at snapshot time.
    pub access_counter: u64,
    /// The entry's last-access stamp at snapshot time.
    pub last_access: u128,
    /// The entry's memory footprint at snapshot time.
    pub mem_size: u64,
    /// Size of the entry's on-disk file at snapshot time, 0 if none.
    pub disk_size: u64,
    /// Whether the entry was memory-resident at snapshot time.
    pub resident: bool,
}

/// One record of the eviction snapshot.
pub struct Candidate {
    /// The entry's key.
    pub key: String,
    /// The entry's read count at snapshot time.
    pub access_counter: u64,
    /// The entry's last-access stamp at snapshot time.
    pub last_access: u128,
    /// The entry's memory footprint at snapshot time.
    pub mem_size: u64,
    /// Size of the entry's on-disk file at snapshot time, 0 if none.
    pub disk_size: u64,
    /// Whether the entry was memory-resident at snapshot time.
    pub resident: bool,
}

impl View for Candidate {
    type V = CandView;

    open spec fn view(&self) -> CandView {
        CandView {
            key: self.key@,
            access_counter: self.access_counter,
            last_access: self.last_access,
            mem_size: self.mem_size,
            disk_size: self.disk_size,
            resident: self.resident,
        }
    }
}

/// The views of a sequence of snapshot records.
pub open spec fn cand_views(s: Seq<Candidate>) -> Seq<CandView> {
    Seq::new(s.len(), |i: int| s[i]@)
}

/// The keys of a sequence of snapshot records, in order.
pub open spec fn keys_of(s: Seq<CandView>) -> Seq<Seq<char>> {
    Seq::new(s.len(), |i: int| s[i].key)
}

/// Whether `a` sorts no later than `b` under `strategy`.
/// * `LastAccess` compares the access stamps alone (oldest first).
/// * `LeastUsed` compares the read counts alone (least-used first).
/// * `Combined` compares read counts first and breaks ties by access stamp.
pub open spec fn cand_le(strategy: CleanseStrategy, a: CandView, b: CandView) -> bool {
    match strategy {
        CleanseStrategy::LastAccess => a.last_access <= b.last_access,
        CleanseStrategy::LeastUsed => a.access_counter <= b.access_counter,
        CleanseStrategy::Combined => a.access_counter < b.access_counter || (a.access_counter
            == b.access_counter && a.last_access <= b.last_access),
    }
}

/// `x` placed into the sorted sequence `s`, after every record that sorts no
/// later than `x`. Inserting after equal-sorting records is what makes the
/// sort stable.
pub open spec fn insert_sorted(strategy: CleanseStrategy, x: CandView, s: Seq<CandView>) -> Seq<
    CandView,
>
    decreases s.len(),
{
    if s.len() == 0 {
        seq![x]
    } else if cand_le(strategy, s[0], x) {
        seq![s[0]] + insert_sorted(strategy, x, s.drop_first())
    } else {
        seq![x] + s
    }
}

/// The stable sort of `s` under `strategy`: the records inserted left to
/// right, each after the records that sort no later than it.
pub open spec fn sort_cands(strategy: CleanseStrategy, s: Seq<CandView>) -> Seq<CandView>
    decreases s.len(),
{
    if s.len() == 0 {
        Seq::<CandView>::empty()
    } else {
        insert_sorted(strategy, s.last(), sort_cands(strategy, s.drop_last()))
    }
}

/// The records a memory-cleanup pass selects for demotion, walking `cands`
/// (already sorted) from the front: a record is selected when it is
/// memory-resident and not yet on disk, and the walk stops once `to_clean`
/// is exhausted.
pub open spec fn selected_mem(cands: Seq<CandView>, to_clean: int) -> Seq<CandView>
    decreases cands.len(),
{
    if cands.len() == 0 || to_clean <= 0 {
        Seq::<CandView>::empty()
    } else {
        let c = cands[0];
        if c.disk_size == 0 && c.resident {
            seq![c] + selected_mem(cands.drop_first(), to_clean - c.mem_size)
        } else {
            selected_mem(cands.drop_first(), to_clean)
        }
    }
}

/// The records a disk-cleanup pass selects for full eviction, walking
/// `cands` (already sorted) from the front: every record is selected,
/// regardless of tier, until `to_clean` is exhausted.
pub open spec fn selected_disk(cands: Seq<CandView>, to_clean: int) -> Seq<CandView>
    decreases cands.len(),
{
    if cands.len() == 0 || to_clean <= 0 {
        Seq::<CandView>::empty()
    } else {
        seq![cands[0]] + selected_disk(cands.drop_first(), to_clean - cands[0].disk_size)
    }
}

/// Total memory footprint of the records of `s`.
pub open spec fn sum_mem(s: Seq<CandView>) -> int
    decreases s.len(),
{
    if s.len() == 0 {
        0
    } else {
        s[0].mem_size + sum_mem(s.drop_first())
    }
}

/// Total memory footprint of the memory-resident records of `s`.
pub open spec fn sum_mem_resident(s: Seq<CandView>) -> int
    decreases s.len(),
{
    if s.len() == 0 {
        0
    } else {
        (if s[0].resident {
            s[0].mem_size as int
        } else {
            0
        }) + sum_mem_resident(s.drop_first())
    }
}

/// Total memory footprint of the records a memory-cleanup pass could select:
/// the memory-resident ones that are not yet on disk.
pub open spec fn sum_selectable(s: Seq<CandView>) -> int
    decreases s.len(),
{
    if s.len() == 0 {
        0
    } else {
        (if s[0].disk_size == 0 && s[0].resident {
            s[0].mem_size as int
        } else {
            0
        }) + sum_selectable(s.drop_first())
    }
}

/// No two records of `s` carry the same key.
pub open spec fn cand_keys_distinct(s: Seq<CandView>) -> bool {
    forall|i: int, j: int| 0 <= i < j < s.len() ==> s[i].key != s[j].key
}

/// What a record adds to the selectable total: its footprint when it could
/// be selected for demotion, nothing otherwise.
pub open spec fn selectable_contrib(c: CandView) -> int {
    if c.disk_size == 0 && c.resident {
        c.mem_size as int
    } else {
        0
    }
}

/// Appending a record raises the footprint total by its footprint.
pub proof fn lemma_sum_mem_snoc(s: Seq<CandView>, v: CandView)
    ensures
        sum_mem(s.push(v)) == sum_mem(s) + v.mem_size,
    decreases s.len(),
{
    if s.len() == 0 {
        assert(s.push(v)[0] == v);
        assert(s.push(v).drop_first() =~= Seq::<CandView>::empty());
        assert(sum_mem(s.push(v)) == v.mem_size + sum_mem(s.push(v).drop_first()));
        assert(sum_mem(Seq::<CandView>::empty()) == 0);
    } else {
        lemma_sum_mem_snoc(s.drop_first(), v);
        assert(s.push(v)[0] == s[0]);
        assert(s.push(v).drop_first() =~= s.drop_first().push(v));
        assert(sum_mem(s.push(v)) == s[0].mem_size + sum_mem(s.push(v).drop_first()));
    }
}

/// Appending a record raises the selectable total by its contribution.
pub proof fn lemma_sum_selectable_snoc(s: Seq<CandView>, v: CandView)
    ensures
        sum_selectable(s.push(v)) == sum_selectable(s) + selectable_contrib(v),
    decreases s.len(),
{
    if s.len() == 0 {
        assert(s.push(v)[0] == v);
        assert(s.push(v).drop_first() =~= Seq::<CandView>::empty());
        assert(sum_selectable(s.push(v)) == selectable_contrib(v) + sum_selectable(
            s.push(v).drop_first(),
        ));
        assert(sum_selectable(Seq::<CandView>::empty()) == 0);
    } else {
        lemma_sum_selectable_snoc(s.drop_first(), v);
        assert(s.push(v)[0] == s[0]);
        assert(s.push(v).drop_first() =~= s.drop_first().push(v));
        assert(sum_selectable(s.push(v)) == selectable_contrib(s[0]) + sum_selectable(
            s.push(v).drop_first(),
        ));
    }
}

/// The selectable total sits between zero and the resident total.
pub proof fn lemma_sum_selectable_le_resident(s: Seq<CandView>)
    ensures
        0 <= sum_selectable(s),
        sum_selectable(s) <= sum_mem_resident(s),
    decreases s.len(),
{
    if s.len() > 0 {
        lemma_sum_selectable_le_resident(s.drop_first());
    }
}

/// Inserting a record yields one record more, each of them the inserted one
/// or one of the old ones, and raises the selectable total by the inserted
/// record's contribution.
pub proof fn lemma_insert_sorted_elements(strategy: CleanseStrategy, x: CandView, s: Seq<CandView>)
    ensures
        insert_sorted(strategy, x, s).len() == s.len() + 1,
        forall|i: int| 0 <= i < s.len() + 1 ==> (#[trigger] insert_sorted(strategy, x, s)[i] == x
            || s.contains(insert_sorted(strategy, x, s)[i])),
        sum_selectable(insert_sorted(strategy, x, s)) == sum_selectable(s) + selectable_contrib(x),
    decreases s.len(),
{
    let t = insert_sorted(strategy, x, s);
    if s.len() == 0 {
        assert(t[0] == x);
        assert(t.drop_first() =~= Seq::<CandView>::empty());
        assert(sum_selectable(t) == selectable_contrib(x) + sum_selectable(t.drop_first()));
        assert(sum_selectable(Seq::<CandView>::empty()) == 0);
    } else if cand_le(strategy, s[0], x) {
        lemma_insert_sorted_elements(strategy, x, s.drop_first());
        let inner = insert_sorted(strategy, x, s.drop_first());
        assert(t[0] == s[0]);
        assert(t.drop_first() =~= inner);
        assert(sum_selectable(t) == selectable_contrib(s[0]) + sum_selectable(t.drop_first()));
        assert(sum_selectable(s) == selectable_contrib(s[0]) + sum_selectable(s.drop_first()));
        assert forall|i: int| 0 <= i < s.len() + 1 implies (#[trigger] t[i] == x || s.contains(
            t[i],
        )) by {
            if i == 0 {
                assert(s[0] == s[0]);
                assert(s.contains(s[0]));
            } else {
                assert(t[i] == inner[i - 1]);
                if inner[i - 1] == x {
                } else {
                    let j = choose|j: int| 0 <= j < s.drop_first().len() && s.drop_first()[j]
                        == inner[i - 1];
                    assert(s[j + 1] == inner[i - 1]);
                    assert(s.contains(t[i]));
                }
            }
        }
    } else {
        assert(t[0] == x);
        assert(t.drop_first() =~= s);
        assert(sum_selectable(t) == selectable_contrib(x) + sum_selectable(t.drop_first()));
        assert forall|i: int| 0 <= i < s.len() + 1 implies (#[trigger] t[i] == x || s.contains(
            t[i],
        )) by {
            if i > 0 {
                assert(t[i] == s[i - 1]);
                assert(s.contains(s[i - 1]));
            }
        }
    }
}

/// Inserting a record whose key occurs nowhere in `s` keeps the keys
/// pairwise distinct.
pub proof fn lemma_insert_sorted_distinct(strategy: CleanseStrategy, x: CandView, s: Seq<CandView>)
    requires
        cand_keys_distinct(s),
        forall|i: int| 0 <= i < s.len() ==> (#[trigger] s[i]).key != x.key,
    ensures
        cand_keys_distinct(insert_sorted(strategy, x, s)),
    decreases s.len(),
{
    let t = insert_sorted(strategy, x, s);
    if s.len() == 0 {
    } else if cand_le(strategy, s[0], x) {
        assert(forall|i: int| 0 <= i < s.drop_first().len() ==> s.drop_first()[i] == s[i + 1]);
        lemma_insert_sorted_distinct(strategy, x, s.drop_first());
        lemma_insert_sorted_elements(strategy, x, s.drop_first());
        let inner = insert_sorted(strategy, x, s.drop_first());
        assert(t[0] == s[0]);
        assert(t.drop_first() =~= inner);
        assert forall|p: int, q: int| 0 <= p < q < t.len() implies t[p].key != t[q].key by {
            if p == 0 {
                assert(t[q] == inner[q - 1]);
                if inner[q - 1] == x {
                    assert(s[0].key != x.key);
                } else {
                    let j = choose|j: int| 0 <= j < s.drop_first().len() && s.drop_first()[j]
                        == inner[q - 1];
                    assert(s[j + 1] == inner[q - 1]);
                    assert(s[0].key != s[j + 1].key);
                }
            } else {
                assert(t[p] == inner[p - 1]);
                assert(t[q] == inner[q - 1]);
            }
        }
    } else {
        assert(t.drop_first() =~= s);
        assert forall|p: int, q: int| 0 <= p < q < t.len() implies t[p].key != t[q].key by {
            if p == 0 {
                assert(t[q] == s[q - 1]);
            } else {
                assert(t[p] == s[p - 1]);
                assert(t[q] == s[q - 1]);
            }
        }
    }
}

/// The sort keeps the number of records, draws each from the snapshot,
/// keeps pairwise distinct keys, and keeps the selectable total.
pub proof fn lemma_sort_preserves(strategy: CleanseStrategy, s: Seq<CandView>)
    ensures
        sort_cands(strategy, s).len() == s.len(),
        forall|i: int| 0 <= i < s.len() ==> s.contains(#[trigger] sort_cands(strategy, s)[i]),
        cand_keys_distinct(s) ==> cand_keys_distinct(sort_cands(strategy, s)),
        sum_selectable(sort_cands(strategy, s)) == sum_selectable(s),
    decreases s.len(),
{
    if s.len() > 0 {
        let p = s.drop_last();
        let x = s.last();
        lemma_sort_preserves(strategy, p);
        let sorted_p = sort_cands(strategy, p);
        lemma_insert_sorted_elements(strategy, x, sorted_p);
        let t = sort_cands(strategy, s);
        assert forall|i: int| 0 <= i < s.len() implies s.contains(#[trigger] t[i]) by {
            if t[i] == x {
                assert(s[s.len() - 1] == x);
            } else {
                assert(sorted_p.contains(t[i]));
                let j = choose|j: int| 0 <= j < sorted_p.len() && sorted_p[j] == t[i];
                assert(p.contains(sorted_p[j]));
                let m = choose|m: int| 0 <= m < p.len() && p[m] == sorted_p[j];
                assert(s[m] == t[i]);
            }
        }
        if cand_keys_distinct(s) {
            assert forall|i: int, j: int| 0 <= i < j < p.len() implies p[i].key != p[j].key by {
                assert(p[i] == s[i]);
                assert(p[j] == s[j]);
            }
            assert forall|i: int| 0 <= i < sorted_p.len() implies (#[trigger] sorted_p[i]).key
                != x.key by {
                assert(p.contains(sorted_p[i]));
                let m = choose|m: int| 0 <= m < p.len() && p[m] == sorted_p[i];
                assert(s[m].key != s[s.len() - 1].key);
            }
            lemma_insert_sorted_distinct(strategy, x, sorted_p);
        }
        lemma_sum_selectable_snoc(p, x);
        assert(p.push(x) =~= s);
    }
}

/// Every record a memory-cleanup pass selects is memory-resident, not yet
/// on disk, and drawn from the walked snapshot; with pairwise distinct
/// snapshot keys the selected keys stay pairwise distinct.
pub proof fn lemma_selected_mem_props(cands: Seq<CandView>, n: int)
    ensures
        forall|i: int| 0 <= i < selected_mem(cands, n).len() ==> {
            let c = #[trigger] selected_mem(cands, n)[i];
            c.resident && c.disk_size == 0 && cands.contains(c)
        },
        cand_keys_distinct(cands) ==> cand_keys_distinct(selected_mem(cands, n)),
    decreases cands.len(),
{
    if cands.len() == 0 || n <= 0 {
    } else {
        let c0 = cands[0];
        let rest = cands.drop_first();
        assert(forall|i: int| 0 <= i < rest.len() ==> rest[i] == cands[i + 1]);
        if c0.disk_size == 0 && c0.resident {
            lemma_selected_mem_props(rest, n - c0.mem_size);
            let inner = selected_mem(rest, n - c0.mem_size);
            let t = selected_mem(cands, n);
            assert(t[0] == c0);
            assert(t.drop_first() =~= inner);
            assert forall|i: int| 0 <= i < t.len() implies {
                let c = #[trigger] t[i];
                c.resident && c.disk_size == 0 && cands.contains(c)
            } by {
                if i == 0 {
                    assert(cands[0] == c0);
                    assert(cands.contains(c0));
                } else {
                    assert(t[i] == inner[i - 1]);
                    assert(rest.contains(inner[i - 1]));
                    let j = choose|j: int| 0 <= j < rest.len() && rest[j] == inner[i - 1];
                    assert(cands[j + 1] == inner[i - 1]);
                    assert(cands.contains(t[i]));
                }
            }
            if cand_keys_distinct(cands) {
                assert forall|i: int, j: int| 0 <= i < j < rest.len() implies rest[i].key
                    != rest[j].key by {}
                assert forall|p: int, q: int| 0 <= p < q < t.len() implies t[p].key != t[q].key by {
                    if p == 0 {
                        assert(t[q] == inner[q - 1]);
                        assert(rest.contains(inner[q - 1]));
                        let j = choose|j: int| 0 <= j < rest.len() && rest[j] == inner[q - 1];
                        assert(cands[0].key != cands[j + 1].key);
                    } else {
                        assert(t[p] == inner[p - 1]);
                        assert(t[q] == inner[q - 1]);
                    }
                }
            }
        } else {
            lemma_selected_mem_props(rest, n);
            let t = selected_mem(cands, n);
            assert(t == selected_mem(rest, n));
            assert forall|i: int| 0 <= i < t.len() implies {
                let c = #[trigger] t[i];
                c.resident && c.disk_size == 0 && cands.contains(c)
            } by {
                assert(rest.contains(t[i]));
                let j = choose|j: int| 0 <= j < rest.len() && rest[j] == t[i];
                assert(cands[j + 1] == t[i]);
            }
        }
    }
}

/// The footprint a memory-cleanup pass selects is never negative, never
/// more than the selectable total, and at least `n` whenever the selectable
/// total covers `n`.
pub proof fn lemma_selected_mem_sums(cands: Seq<CandView>, n: int)
    ensures
        0 <= sum_mem(selected_mem(cands, n)),
        sum_mem(selected_mem(cands, n)) <= sum_selectable(cands),
        n <= sum_selectable(cands) ==> sum_mem(selected_mem(cands, n)) >= n,
    decreases cands.len(),
{
    lemma_sum_selectable_le_resident(cands);
    if cands.len() == 0 || n <= 0 {
    } else {
        let c0 = cands[0];
        let rest = cands.drop_first();
        if c0.disk_size == 0 && c0.resident {
            lemma_selected_mem_sums(rest, n - c0.mem_size);
            let inner = selected_mem(rest, n - c0.mem_size);
            let t = selected_mem(cands, n);
            assert(t[0] == c0);
            assert(t.drop_first() =~= inner);
        } else {
            lemma_selected_mem_sums(rest, n);
        }
    }
}

/// Splitting an insertion at a prefix of records that sort no later than the
/// inserted one: the prefix passes through unchanged.
proof fn lemma_insert_sorted_split(strategy: CleanseStrategy, x: CandView, s: Seq<CandView>, j: int)
    requires
        0 <= j <= s.len(),
        forall|i: int| 0 <= i < j ==> cand_le(strategy, s[i], x),
    ensures
        insert_sorted(strategy, x, s) == s.subrange(0, j) + insert_sorted(
            strategy,
            x,
            s.subrange(j, s.len() as int),
        ),
    decreases j,
{
    if j == 0 {
        assert(s.subrange(0, s.len() as int) =~= s);
        assert(s.subrange(0, 0) + insert_sorted(strategy, x, s.subrange(0, s.len() as int))
            =~= insert_sorted(strategy, x, s));
    } else {
        let t = s.drop_first();
        lemma_insert_sorted_split(strategy, x, t, j - 1);
        assert(forall|i: int| 0 <= i < t.len() ==> t[i] == s[i + 1]);
        assert(cand_le(strategy, s[0], x));
        assert(insert_sorted(strategy, x, s) == seq![s[0]] + insert_sorted(strategy, x, t));
        assert(s.subrange(0, j) =~= seq![s[0]] + t.subrange(0, j - 1));
        assert(s.subrange(j, s.len() as int) =~= t.subrange(j - 1, t.len() as int));
        assert(seq![s[0]] + (t.subrange(0, j - 1) + insert_sorted(
            strategy,
            x,
            t.subrange(j - 1, t.len() as int),
        )) =~= s.subrange(0, j) + insert_sorted(strategy, x, s.subrange(j, s.len() as int)));
    }
}

/// Whether `a` sorts no later than `b` under `strategy`.
fn cand_le_exec(strategy: &CleanseStrategy, a: &Candidate, b: &Candidate) -> (r: bool)
    ensures
        r == cand_le(*strategy, a@, b@),
{
    match strategy {
        CleanseStrategy::LastAccess => a.last_access <= b.last_access,
        CleanseStrategy::LeastUsed => a.access_counter <= b.access_counter,
        CleanseStrategy::Combined => a.access_counter < b.access_counter || (a.access_counter
            == b.access_counter && a.last_access <= b.last_access),
    }
}

/// Places `x` into the sorted `acc`, after every record that sorts no later
/// than it.
fn insert_candidate(strategy: &CleanseStrategy, acc: &mut Vec<Candidate>, x: Candidate)
    ensures
        cand_views(final(acc)@) == insert_sorted(*strategy, x@, cand_views(old(acc)@)),
{
    let ghost s = cand_views(acc@);
    let n = acc.len();
    let mut j: usize = 0;
    loop
        invariant_except_break
            n == acc@.len(),
            j <= n,
            s == cand_views(acc@),
            forall|i: int| 0 <= i < j ==> cand_le(*strategy, s[i], x@),
        ensures
            n == acc@.len(),
            j <= n,
            s == cand_views(acc@),
            forall|i: int| 0 <= i < j ==> cand_le(*strategy, s[i], x@),
            j == n || !cand_le(*strategy, s[j as int], x@),
        decreases n - j,
    {
        if j == n {
            break ;
        }
        if !cand_le_exec(strategy, &acc[j], &x) {
            proof {
                assert(s[j as int] == acc@[j as int]@);
            }
            break ;
        }
        proof {
            assert(s[j as int] == acc@[j as int]@);
        }
        j = j + 1;
    }
    proof {
        lemma_insert_sorted_split(*strategy, x@, s, j as int);
        if j == n {
            assert(s.subrange(j as int, s.len() as int) =~= Seq::<CandView>::empty());
            assert(insert_sorted(*strategy, x@, Seq::<CandView>::empty()) =~= seq![x@]);
        }
        assert(insert_sorted(*strategy, x@, s) =~= s.subrange(0, j as int) + seq![x@] + s.subrange(
            j as int,
            s.len() as int,
        ));
    }
    acc.insert(j, x);
    proof {
        assert(cand_views(acc@) =~= s.subrange(0, j as int) + seq![x@] + s.subrange(
            j as int,
            s.len() as int,
        ));
    }
}

/// Sorts the snapshot ascending by `strategy`, keeping equal-sorting records
/// in their snapshot order.
pub fn sort_candidates(strategy: &CleanseStrategy, v: Vec<Candidate>) -> (r: Vec<Candidate>)
    ensures
        cand_views(r@) == sort_cands(*strategy, cand_views(v@)),
{
    let ghost orig = cand_views(v@);
    let mut v = v;
    let mut r: Vec<Candidate> = Vec::new();
    let ghost n = orig.len();
    while v.len() > 0
        invariant
            n == orig.len(),
            v@.len() <= n,
            cand_views(v@) =~= orig.subrange(n - v@.len(), n as int),
            cand_views(r@) == sort_cands(*strategy, orig.subrange(0, n - v@.len())),
        decreases v@.len(),
    {
        let ghost i = n - v@.len();
        let ghost prev = v@;
        let x = v.remove(0);
        proof {
            assert(prev.len() == n - i);
            assert(cand_views(prev)[0] == prev[0]@);
            assert(orig.subrange(i, n as int)[0] == orig[i]);
            assert(x@ == orig[i]);
            assert(v@ =~= prev.subrange(1, prev.len() as int));
            assert forall|k: int| 0 <= k < v@.len() implies cand_views(v@)[k] == orig[i + 1 + k] by {
                assert(v@[k] == prev[k + 1]);
                assert(cand_views(prev)[k + 1] == prev[k + 1]@);
                assert(orig.subrange(i, n as int)[k + 1] == orig[i + 1 + k]);
            }
            assert(cand_views(v@) =~= orig.subrange(i + 1, n as int));
        }
        insert_candidate(strategy, &mut r, x);
        proof {
            let p = orig.subrange(0, i + 1);
            assert(p.drop_last() =~= orig.subrange(0, i));
            assert(p.last() == orig[i]);
            assert(sort_cands(*strategy, p) == insert_sorted(
                *strategy,
                p.last(),
                sort_cands(*strategy, p.drop_last()),
            ));
        }
    }
    proof {
        assert(orig.subrange(0, n as int) =~= orig);
    }
    r
}

} // verus!
