//! ABC analysis: items ranked by how often they sell, and classed A, B or C by
//! their cumulative share of all sales.
use vstd::prelude::*;
use crate::grouping::{KeyGroup, is_grouping, group_by_key, present_count, group_sizes};
use crate::grouping::{size_keys, keys_follow_rows, lemma_grouped_rows_sum, lemma_present_and_skipped};
use crate::master::{ItemMaster, display_name};
use crate::order::{is_stable_order, goes_before, sum_nat, picked};
use crate::order::{lemma_sum_picked, lemma_sum_prefix};
use crate::rows::{SaleLine, skipped_in, count_skipped};

verus! {

/// The class of an item.
#[derive(PartialEq, Eq, Structural, Clone, Copy, Debug)]
pub enum AbcRank {
    A,
    B,
    C,
}

/// Items whose cumulative share of sales is at most this percentage are class A.
pub const A_SHARE_PERCENT: u64 = 70;

/// Items whose cumulative share of sales is at most this percentage (and
/// above the class A share) are class B; the rest are class C.
pub const B_SHARE_PERCENT: u64 = 90;

/// The class of an item whose cumulative count is `cumulative` out of `total`
/// sales: its cumulative share, `cumulative / total`, against the class limits.
pub open spec fn rank_for(cumulative: nat, total: nat) -> AbcRank {
    if 100 * cumulative <= A_SHARE_PERCENT * total {
        AbcRank::A
    } else if 100 * cumulative <= B_SHARE_PERCENT * total {
        AbcRank::B
    } else {
        AbcRank::C
    }
}

/// The classes in order: A, then B, then C.
pub open spec fn rank_level(rank: AbcRank) -> nat {
    match rank {
        AbcRank::A => 0,
        AbcRank::B => 1,
        AbcRank::C => 2,
    }
}

/// A larger cumulative count never gives a better class.
pub proof fn lemma_rank_monotone(c1: nat, c2: nat, total: nat)
    requires
        c1 <= c2,
    ensures
        rank_level(rank_for(c1, total)) <= rank_level(rank_for(c2, total)),
{
}

impl AbcRank {
    /// The label of the class.
    pub fn label(&self) -> (s: String)
        ensures
            s@ == abc_label(*self),
            s@.len() == 1,
            s@[0] as int == 'A' as int + rank_level(*self),
    {
        proof {
            lemma_label_is_class_letter(*self, *self);
        }
        match self {
            AbcRank::A => {
                proof {
                    reveal_strlit("A");
                }
                "A".to_owned()
            },
            AbcRank::B => {
                proof {
                    reveal_strlit("B");
                }
                "B".to_owned()
            },
            AbcRank::C => {
                proof {
                    reveal_strlit("C");
                }
                "C".to_owned()
            },
        }
    }
}

/// The label of a class: `"A"`, `"B"` or `"C"`.
pub open spec fn abc_label(rank: AbcRank) -> Seq<char> {
    match rank {
        AbcRank::A => seq!['A'],
        AbcRank::B => seq!['B'],
        AbcRank::C => seq!['C'],
    }
}

/// A class's label is its own letter: one character, the letter `A` moved
/// on by the class's place in the order A, B, C. So different classes have
/// different labels.
pub proof fn lemma_label_is_class_letter(r1: AbcRank, r2: AbcRank)
    ensures
        abc_label(r1).len() == 1,
        abc_label(r1)[0] as int == 'A' as int + rank_level(r1),
        r1 != r2 ==> abc_label(r1) != abc_label(r2),
{
    if r1 != r2 && abc_label(r1) == abc_label(r2) {
        assert(abc_label(r1)[0] == abc_label(r2)[0]);
    }
}

/// Computes the class of a cumulative count.
pub fn classify(cumulative: usize, total: usize) -> (rank: AbcRank)
    ensures
        rank == rank_for(cumulative as nat, total as nat),
{
    let c = cumulative as u128;
    let t = total as u128;
    assert(c <= 0xffff_ffff_ffff_ffffu128 && t <= 0xffff_ffff_ffff_ffffu128);
    if c * 100 <= (A_SHARE_PERCENT as u128) * t {
        AbcRank::A
    } else if c * 100 <= (B_SHARE_PERCENT as u128) * t {
        AbcRank::B
    } else {
        AbcRank::C
    }
}

/// One item of the ABC report.
pub struct AbcEntry {
    pub item_id: String,
    pub item_name: String,
    pub count: usize,
    pub cumulative_count: usize,
    pub rank: AbcRank,
}

/// The outcome of an ABC analysis.
pub struct AbcReport {
    pub items: Vec<AbcEntry>,
    pub total_count: usize,
    pub skipped_rows: usize,
    pub total_rows: usize,
}

/// The item ids of the rows, `None` for rows that could not be read.
pub open spec fn item_keys(rows: Seq<Option<SaleLine>>) -> Seq<Option<Seq<char>>> {
    Seq::new(
        rows.len(),
        |r: int|
            match rows[r] {
                Some(line) => Some(line.item_id@),
                None => None,
            },
    )
}

/// The counts of the report's items.
pub open spec fn entry_counts(items: Seq<AbcEntry>) -> Seq<nat> {
    Seq::new(items.len(), |p: int| items[p].count as nat)
}

/// `report` is the ABC analysis of `rows`, given the rows' grouping by item
/// and the stable order of the groups by count, largest first.
pub open spec fn abc_report_from(
    rows: Seq<Option<SaleLine>>,
    master: Seq<(Seq<char>, Seq<char>)>,
    report: AbcReport,
    groups: Seq<KeyGroup>,
    ord: Seq<usize>,
) -> bool {
    let items = report.items@;
    &&& is_grouping(item_keys(rows), groups)
    &&& is_stable_order(size_keys(groups), ord)
    &&& report.total_count == present_count(item_keys(rows))
    &&& items.len() == groups.len()
    &&& forall|p: int|
        0 <= p < items.len() ==> {
            let g = groups[ord[p] as int];
            &&& (#[trigger] items[p]).item_id@ == g.key@
            &&& items[p].count == g.rows@.len()
            &&& items[p].item_name@ == display_name(master, g.key@)
            &&& items[p].cumulative_count == sum_nat(entry_counts(items).take(p + 1))
            &&& items[p].rank == rank_for(items[p].cumulative_count as nat, report.total_count as nat)
        }
}

fn item_ids(rows: &Vec<Option<SaleLine>>) -> (keys: Vec<Option<String>>)
    ensures
        keys.deep_view() == item_keys(rows@),
{
    let mut keys: Vec<Option<String>> = Vec::new();
    let mut i: usize = 0;
    while i < rows.len()
        invariant
            i <= rows@.len(),
            keys.deep_view() =~= item_keys(rows@).take(i as int),
        decreases rows@.len() - i,
    {
        let ghost before = keys.deep_view();
        match &rows[i] {
            Some(line) => keys.push(Some(line.item_id.clone())),
            None => keys.push(None),
        }
        assert(keys.deep_view() =~= before.push(item_keys(rows@)[i as int]));
        assert(item_keys(rows@).take(i + 1) =~= item_keys(rows@).take(i as int).push(item_keys(rows@)[i as int]));
        i = i + 1;
    }
    keys
}

/// Ranks the items of sales rows by how many rows name them, largest count
/// first (ties in order of first appearance), with each item's cumulative
/// count and class.
pub fn analyze_abc(rows: &Vec<Option<SaleLine>>, master: &ItemMaster) -> (report: AbcReport)
    ensures
        exists|groups: Seq<KeyGroup>, ord: Seq<usize>| #[trigger] abc_report_from(rows@, master@, report, groups, ord),
        report.total_rows == rows@.len(),
        report.skipped_rows == skipped_in(rows@),
        report.total_count + report.skipped_rows == report.total_rows,
        forall|p: int, q: int|
            0 <= p < q < report.items@.len() ==> (#[trigger] report.items@[p]).count >= (#[trigger] report.items@[q]).count,
        forall|p: int, q: int|
            0 <= p < q < report.items@.len() ==> (#[trigger] report.items@[p]).cumulative_count
                <= (#[trigger] report.items@[q]).cumulative_count && rank_level(report.items@[p].rank)
                <= rank_level(report.items@[q].rank),
        report.items@.len() > 0 ==> report.items@.last().cumulative_count == report.total_count,
{
    let keys = item_ids(rows);
    let ghost ks = keys.deep_view();
    let groups = group_by_key(&keys);
    let ord = crate::grouping::order_by_size(&groups);
    let total = count_present(rows);
    let ghost ws = group_sizes(groups@);
    proof {
        assert(keys_follow_rows(ks, rows@));
        lemma_present_and_skipped(ks, rows@);
        lemma_grouped_rows_sum(groups@);
    }
    let mut items: Vec<AbcEntry> = Vec::new();
    let mut cumulative: usize = 0;
    let mut p: usize = 0;
    while p < ord.len()
        invariant
            ks == item_keys(rows@),
            is_grouping(ks, groups@),
            is_stable_order(size_keys(groups@), ord@),
            ws == group_sizes(groups@),
            sum_nat(ws) == present_count(ks),
            total == present_count(ks),
            p <= ord@.len(),
            items@.len() == p,
            entry_counts(items@) =~= picked(ws, ord@.take(p as int)),
            cumulative == sum_nat(entry_counts(items@)),
            forall|q: int|
                0 <= q < p ==> {
                    let g = groups@[ord@[q] as int];
                    &&& (#[trigger] items@[q]).item_id@ == g.key@
                    &&& items@[q].count == g.rows@.len()
                    &&& items@[q].item_name@ == display_name(master@, g.key@)
                    &&& items@[q].cumulative_count == sum_nat(entry_counts(items@).take(q + 1))
                    &&& items@[q].rank == rank_for(items@[q].cumulative_count as nat, total as nat)
                },
        decreases ord@.len() - p,
    {
        let group = &groups[ord[p]];
        let count = group.rows.len();
        let ghost before = items@;
        proof {
            let next = ord@.take(p + 1);
            let prev = picked(ws, ord@.take(p as int));
            assert(picked(ws, next) =~= prev.push(ws[ord@[p as int] as int]));
            assert(prev.push(ws[ord@[p as int] as int]).drop_last() =~= prev);
            assert(ws[ord@[p as int] as int] == count);
            assert(sum_nat(prev) == cumulative);
            lemma_sum_picked(ws, next);
            assert(sum_nat(picked(ws, next)) == cumulative + count);
        }
        cumulative = cumulative + count;
        let rank = classify(cumulative, total);
        items.push(AbcEntry {
            item_id: group.key.clone(),
            item_name: master.name_of(&group.key),
            count,
            cumulative_count: cumulative,
            rank,
        });
        proof {
            assert(entry_counts(items@) =~= entry_counts(before).push(count as nat));
            assert(entry_counts(items@).take(p + 1) =~= entry_counts(items@));
            assert forall|q: int| 0 <= q < p implies #[trigger] entry_counts(items@).take(q + 1) == entry_counts(before).take(q + 1) by {
                assert(entry_counts(items@).take(q + 1) =~= entry_counts(before).take(q + 1));
            }
        }
        p = p + 1;
    }
    let report = AbcReport {
        items,
        total_count: total,
        skipped_rows: count_skipped(rows),
        total_rows: rows.len(),
    };
    proof {
        let its = report.items@;
        assert(abc_report_from(rows@, master@, report, groups@, ord@));
        assert(ord@.take(ord@.len() as int) =~= ord@);
        lemma_sum_picked(ws, ord@);
        assert forall|p: int, q: int| 0 <= p < q < its.len() implies (#[trigger] its[p]).count >= (#[trigger] its[q]).count by {
            assert(goes_before(size_keys(groups@), ord@[p] as int, ord@[q] as int));
            assert(ord@[p] < groups@.len() && ord@[q] < groups@.len());
        }
        assert forall|p: int, q: int| 0 <= p < q < its.len() implies (#[trigger] its[p]).cumulative_count
            <= (#[trigger] its[q]).cumulative_count && rank_level(its[p].rank) <= rank_level(its[q].rank) by {
            let cs = entry_counts(its);
            assert(cs.take(q + 1).take(p + 1) =~= cs.take(p + 1));
            lemma_sum_prefix(cs.take(q + 1), p + 1);
            lemma_rank_monotone(its[p].cumulative_count as nat, its[q].cumulative_count as nat, total as nat);
        }
        if its.len() > 0 {
            assert(entry_counts(its).take(its.len() as int) =~= entry_counts(its));
        }
    }
    report
}

/// The number of rows that could be read.
fn count_present(rows: &Vec<Option<SaleLine>>) -> (n: usize)
    ensures
        n == present_count(item_keys(rows@)),
{
    let ghost ks = item_keys(rows@);
    let mut n: usize = 0;
    let mut i: usize = 0;
    while i < rows.len()
        invariant
            ks == item_keys(rows@),
            i <= rows@.len(),
            n == present_count(ks.take(i as int)),
            n <= i,
        decreases rows@.len() - i,
    {
        assert(ks.take(i + 1).drop_last() =~= ks.take(i as int));
        assert(ks.take(i + 1).last() == ks[i as int]);
        if rows[i].is_some() {
            n = n + 1;
        }
        i = i + 1;
    }
    assert(ks.take(rows@.len() as int) =~= ks);
    n
}

} // verus!
