//! Grouping of rows by a text key.
use vstd::prelude::*;
use crate::order::{sum_nat, HighFirst};
use crate::rows::skipped_in;

verus! {

/// The rows that share one key, by index, in increasing order.
pub struct KeyGroup {
    pub key: String,
    pub rows: Vec<usize>,
}

/// `groups` groups the present entries among the first `m` of `keys`: one group
/// per key, groups in order of the first row with their key, each listing
/// exactly the rows with its key in increasing order.
pub open spec fn groups_upto(keys: Seq<Option<Seq<char>>>, groups: Seq<KeyGroup>, m: int) -> bool {
    &&& forall|g: int, h: int|
        0 <= g < h < groups.len() ==> (#[trigger] groups[g]).key@ != (#[trigger] groups[h]).key@
    &&& forall|g: int| 0 <= g < groups.len() ==> (#[trigger] groups[g]).rows@.len() > 0
    &&& forall|g: int, p: int|
        0 <= g < groups.len() && 0 <= p < groups[g].rows@.len() ==> {
            &&& (#[trigger] groups[g].rows@[p]) < m
            &&& keys[groups[g].rows@[p] as int] == Some(groups[g].key@)
        }
    &&& forall|g: int, p: int, q: int|
        0 <= g < groups.len() && 0 <= p < q < groups[g].rows@.len() ==> (#[trigger] groups[g].rows@[p])
            < (#[trigger] groups[g].rows@[q])
    &&& forall|g: int, r: usize|
        0 <= g < groups.len() && r < m && keys[r as int] == Some((#[trigger] groups[g]).key@)
            ==> #[trigger] groups[g].rows@.contains(r)
    &&& forall|r: int| 0 <= r < m && (#[trigger] keys[r]) is Some ==> exists|g: int|
        0 <= g < groups.len() && Some((#[trigger] groups[g]).key@) == keys[r]
    &&& forall|g: int, h: int|
        0 <= g < h < groups.len() ==> (#[trigger] groups[g]).rows@[0] < (#[trigger] groups[h]).rows@[0]
}

/// `groups` groups all present entries of `keys`.
pub open spec fn is_grouping(keys: Seq<Option<Seq<char>>>, groups: Seq<KeyGroup>) -> bool {
    groups_upto(keys, groups, keys.len() as int)
}

/// The number of present entries among `keys`.
pub open spec fn present_count(keys: Seq<Option<Seq<char>>>) -> nat
    decreases keys.len(),
{
    if keys.len() == 0 {
        0
    } else {
        present_count(keys.drop_last()) + if keys.last() is Some {
            1nat
        } else {
            0nat
        }
    }
}

/// The number of rows over all groups.
pub open spec fn grouped_rows(groups: Seq<KeyGroup>) -> nat
    decreases groups.len(),
{
    if groups.len() == 0 {
        0
    } else {
        grouped_rows(groups.drop_last()) + groups.last().rows@.len()
    }
}

/// The sizes of the groups, as sort keys: the larger group first.
pub open spec fn size_keys(groups: Seq<KeyGroup>) -> Seq<HighFirst> {
    Seq::new(groups.len(), |g: int| HighFirst(groups[g].rows@.len() as u64))
}

/// The sizes of the groups.
pub open spec fn group_sizes(groups: Seq<KeyGroup>) -> Seq<nat> {
    Seq::new(groups.len(), |g: int| groups[g].rows@.len())
}

pub proof fn lemma_grouped_rows_sum(groups: Seq<KeyGroup>)
    ensures
        grouped_rows(groups) == sum_nat(group_sizes(groups)),
    decreases groups.len(),
{
    if groups.len() > 0 {
        lemma_grouped_rows_sum(groups.drop_last());
        assert(group_sizes(groups).drop_last() =~= group_sizes(groups.drop_last()));
    }
}

/// `keys` has a key for exactly the rows that could be read.
pub open spec fn keys_follow_rows<T>(keys: Seq<Option<Seq<char>>>, rows: Seq<Option<T>>) -> bool {
    keys.len() == rows.len() && forall|r: int| 0 <= r < rows.len() ==> (#[trigger] keys[r] is Some <==> rows[r] is Some)
}

/// Every row is either read (and has a key) or skipped.
pub proof fn lemma_present_and_skipped<T>(keys: Seq<Option<Seq<char>>>, rows: Seq<Option<T>>)
    requires
        keys_follow_rows(keys, rows),
    ensures
        present_count(keys) + skipped_in(rows) == rows.len(),
    decreases rows.len(),
{
    if rows.len() > 0 {
        assert(keys.last() is Some <==> rows.last() is Some);
        lemma_present_and_skipped(keys.drop_last(), rows.drop_last());
    }
}

proof fn lemma_grouped_rows_grow(old: Seq<KeyGroup>, new: Seq<KeyGroup>, g: int)
    requires
        0 <= g < old.len(),
        new.len() == old.len(),
        forall|h: int| 0 <= h < old.len() && h != g ==> #[trigger] new[h].rows@.len() == old[h].rows@.len(),
        new[g].rows@.len() == old[g].rows@.len() + 1,
    ensures
        grouped_rows(new) == grouped_rows(old) + 1,
    decreases old.len(),
{
    if g < old.len() - 1 {
        lemma_grouped_rows_grow(old.drop_last(), new.drop_last(), g);
    } else {
        lemma_grouped_rows_same(old.drop_last(), new.drop_last());
    }
}

proof fn lemma_grouped_rows_same(old: Seq<KeyGroup>, new: Seq<KeyGroup>)
    requires
        new.len() == old.len(),
        forall|h: int| 0 <= h < old.len() ==> #[trigger] new[h].rows@.len() == old[h].rows@.len(),
    ensures
        grouped_rows(new) == grouped_rows(old),
    decreases old.len(),
{
    if old.len() > 0 {
        lemma_grouped_rows_same(old.drop_last(), new.drop_last());
    }
}

/// Groupings depend only on the groups' keys and rows as values.
pub proof fn lemma_grouping_same_views(keys: Seq<Option<Seq<char>>>, g1: Seq<KeyGroup>, g2: Seq<KeyGroup>)
    requires
        is_grouping(keys, g1),
        g1.len() == g2.len(),
        forall|g: int| 0 <= g < g1.len() ==> (#[trigger] g1[g]).key@ == g2[g].key@ && g1[g].rows@ == g2[g].rows@,
    ensures
        is_grouping(keys, g2),
{
    assert forall|g: int| 0 <= g < g2.len() implies (#[trigger] g2[g]).key@ == g1[g].key@ && g2[g].rows@ == g1[g].rows@ by {
        assert(g1[g].key@ == g2[g].key@);
    }
    assert forall|r: int| 0 <= r < keys.len() && (#[trigger] keys[r]) is Some implies exists|g: int|
        0 <= g < g2.len() && Some((#[trigger] g2[g]).key@) == keys[r] by {
        let g = choose|g: int| 0 <= g < g1.len() && Some((#[trigger] g1[g]).key@) == keys[r];
        assert(Some(g2[g].key@) == keys[r]);
    }
    assert forall|g: int, r: usize|
        0 <= g < g2.len() && r < keys.len() && keys[r as int] == Some((#[trigger] g2[g]).key@)
        implies #[trigger] g2[g].rows@.contains(r) by {
        assert(g1[g].rows@.contains(r));
    }
}

/// The position of the group with key `key`, if any.
pub fn find_group(groups: &Vec<KeyGroup>, key: &String) -> (found: Option<usize>)
    ensures
        match found {
            Some(g) => g < groups@.len() && groups@[g as int].key@ == key@,
            None => forall|g: int| 0 <= g < groups@.len() ==> (#[trigger] groups@[g]).key@ != key@,
        },
{
    let mut g: usize = 0;
    while g < groups.len()
        invariant
            g <= groups@.len(),
            forall|h: int| 0 <= h < g ==> (#[trigger] groups@[h]).key@ != key@,
        decreases groups@.len() - g,
    {
        if groups[g].key == *key {
            return Some(g);
        }
        g = g + 1;
    }
    None
}

/// Adds row `r`, whose key is that of group `g`, to that group.
#[verifier::spinoff_prover]
#[verifier::rlimit(40)]
fn add_to_group(groups: &mut Vec<KeyGroup>, g: usize, r: usize, ks: Ghost<Seq<Option<Seq<char>>>>)
    requires
        groups_upto(ks@, old(groups)@, r as int),
        r < ks@.len(),
        g < old(groups)@.len(),
        ks@[r as int] == Some(old(groups)@[g as int].key@),
    ensures
        groups_upto(ks@, final(groups)@, r + 1),
        grouped_rows(final(groups)@) == grouped_rows(old(groups)@) + 1,
{
    let ghost k = old(groups)@[g as int].key@;
    let ghost old_groups = groups@;
    groups[g].rows.push(r);
    proof {
        let ks = ks@;
        let s = groups@;
        assert forall|h: int| 0 <= h < s.len() && h != g implies s[h] == old_groups[h] by {}
        assert(s[g as int].rows@ =~= old_groups[g as int].rows@.push(r));
        assert(s[g as int].key == old_groups[g as int].key);
        lemma_grouped_rows_grow(old_groups, s, g as int);
        assert forall|h: int, r2: usize|
            0 <= h < s.len() && r2 < r + 1 && ks[r2 as int] == Some((#[trigger] s[h]).key@)
            implies #[trigger] s[h].rows@.contains(r2) by {
            if r2 == r {
                if h != g {
                    assert(old_groups[h].key@ != old_groups[g as int].key@);
                }
                assert(s[g as int].rows@[s[g as int].rows@.len() - 1] == r);
            } else {
                assert(old_groups[h].rows@.contains(r2));
                let p = choose|p: int| 0 <= p < old_groups[h].rows@.len() && old_groups[h].rows@[p] == r2;
                assert(s[h].rows@[p] == r2);
            }
        }
        assert forall|r2: int| 0 <= r2 < r + 1 && (#[trigger] ks[r2]) is Some implies exists|h: int|
            0 <= h < s.len() && Some((#[trigger] s[h]).key@) == ks[r2] by {
            if r2 == r {
                assert(Some(s[g as int].key@) == ks[r2]);
            } else {
                let h = choose|h: int| 0 <= h < old_groups.len() && Some((#[trigger] old_groups[h]).key@) == ks[r2];
                assert(Some(s[h].key@) == ks[r2]);
            }
        }
    }
}

/// Opens a new group for row `r`, whose key no group has.
#[verifier::spinoff_prover]
fn add_new_group(groups: &mut Vec<KeyGroup>, k: &String, r: usize, ks: Ghost<Seq<Option<Seq<char>>>>)
    requires
        groups_upto(ks@, old(groups)@, r as int),
        r < ks@.len(),
        ks@[r as int] == Some(k@),
        forall|g: int| 0 <= g < old(groups)@.len() ==> (#[trigger] old(groups)@[g]).key@ != k@,
    ensures
        groups_upto(ks@, final(groups)@, r + 1),
        grouped_rows(final(groups)@) == grouped_rows(old(groups)@) + 1,
{
    let ghost old_groups = groups@;
    let mut rows: Vec<usize> = Vec::new();
    rows.push(r);
    groups.push(KeyGroup { key: k.clone(), rows });
    proof {
        let ks = ks@;
        let s = groups@;
        let n = old_groups.len() as int;
        assert(s[n].rows@ =~= seq![r]);
        assert(s.drop_last() =~= old_groups);
        assert forall|h: int, r2: usize|
            0 <= h < s.len() && r2 < r + 1 && ks[r2 as int] == Some((#[trigger] s[h]).key@)
            implies #[trigger] s[h].rows@.contains(r2) by {
            if h == n {
                if r2 != r {
                    let h2 = choose|h2: int| 0 <= h2 < old_groups.len() && Some((#[trigger] old_groups[h2]).key@) == ks[r2 as int];
                    assert(old_groups[h2].key@ == k@);
                }
                assert(s[n].rows@[0] == r);
            } else {
                if r2 == r {
                    assert(old_groups[h].key@ != k@);
                }
                assert(old_groups[h].rows@.contains(r2));
            }
        }
        assert forall|r2: int| 0 <= r2 < r + 1 && (#[trigger] ks[r2]) is Some implies exists|h: int|
            0 <= h < s.len() && Some((#[trigger] s[h]).key@) == ks[r2] by {
            if r2 == r {
                assert(Some(s[n].key@) == ks[r2]);
            } else {
                let h = choose|h: int| 0 <= h < old_groups.len() && Some((#[trigger] old_groups[h]).key@) == ks[r2];
                assert(Some(s[h].key@) == ks[r2]);
            }
        }
        assert forall|g: int, h: int|
            0 <= g < h < s.len() implies (#[trigger] s[g]).rows@[0] < (#[trigger] s[h]).rows@[0] by {
            if h == n {
                assert(old_groups[g].rows@[0] < r);
            }
        }
    }
}

/// Groups the indices of the present entries of `keys` by key.
pub fn group_by_key(keys: &Vec<Option<String>>) -> (groups: Vec<KeyGroup>)
    ensures
        is_grouping(keys.deep_view(), groups@),
        grouped_rows(groups@) == present_count(keys.deep_view()),
{
    let ghost ks = keys.deep_view();
    let mut groups: Vec<KeyGroup> = Vec::new();
    let mut r: usize = 0;
    while r < keys.len()
        invariant
            ks == keys.deep_view(),
            r <= keys@.len(),
            groups_upto(ks, groups@, r as int),
            grouped_rows(groups@) == present_count(ks.take(r as int)),
        decreases keys@.len() - r,
    {
        assert(ks.take(r + 1).drop_last() =~= ks.take(r as int));
        assert(ks.take(r + 1).last() == ks[r as int]);
        match &keys[r] {
            Some(k) => {
                assert(ks[r as int] == Some(k@));
                match find_group(&groups, k) {
                    Some(g) => add_to_group(&mut groups, g, r, Ghost(ks)),
                    None => add_new_group(&mut groups, k, r, Ghost(ks)),
                }
            },
            None => {
                assert(ks[r as int] is None);
            },
        }
        r = r + 1;
    }
    assert(ks.take(keys@.len() as int) =~= ks);
    groups
}

/// The groups' positions sorted by size, largest first (ties keep their order).
pub fn order_by_size(groups: &Vec<KeyGroup>) -> (ord: Vec<usize>)
    ensures
        crate::order::is_stable_order(size_keys(groups@), ord@),
{
    let mut size: Vec<HighFirst> = Vec::new();
    let mut g: usize = 0;
    while g < groups.len()
        invariant
            g <= groups@.len(),
            size@ =~= size_keys(groups@).take(g as int),
        decreases groups@.len() - g,
    {
        size.push(HighFirst(groups[g].rows.len() as u64));
        g = g + 1;
    }
    assert(size@ =~= size_keys(groups@));
    crate::order::stable_order(&size)
}

} // verus!
