//! The edits that turn one program into another.

use crate::program::{
    has_name,
    lemma_map_of_index,
    names_distinct,
    position_of,
    same_item,
    Item,
    ItemView,
    Program,
};
use vstd::prelude::*;

verus! {

/// One difference between an old and a new program.
#[derive(Debug, Clone)]
pub enum Diff {
    /// An item only the new program has.
    Added(Item),
    /// An item only the old program has.
    Removed(Item),
    /// An item both have, old and new, which are not the same.
    Changed(Item, Item),
}

pub enum DiffView {
    Added(ItemView),
    Removed(ItemView),
    Changed(ItemView, ItemView),
}

impl View for Diff {
    type V = DiffView;

    open spec fn view(&self) -> DiffView {
        match self {
            Diff::Added(n) => DiffView::Added(n@),
            Diff::Removed(o) => DiffView::Removed(o@),
            Diff::Changed(o, n) => DiffView::Changed(o@, n@),
        }
    }
}

/// The name that an edit is about.
pub open spec fn edit_name(d: DiffView) -> Seq<char> {
    match d {
        DiffView::Added(n) => n.name,
        DiffView::Removed(o) => o.name,
        DiffView::Changed(o, _) => o.name,
    }
}

/// Whether the item named `k` differs between `old` and `new`: it is in
/// only one of them, or in both and not the same.
pub open spec fn differs(
    old: Map<Seq<char>, ItemView>,
    new: Map<Seq<char>, ItemView>,
    k: Seq<char>,
) -> bool {
    if old.contains_key(k) {
        !new.contains_key(k) || !same_item(old[k], new[k])
    } else {
        new.contains_key(k)
    }
}

/// Whether `d` is a true edit from `old` to `new`.
pub open spec fn is_edit(
    old: Map<Seq<char>, ItemView>,
    new: Map<Seq<char>, ItemView>,
    d: DiffView,
) -> bool {
    match d {
        DiffView::Added(n) => !old.contains_key(n.name) && new.contains_key(n.name) && new[n.name]
            == n,
        DiffView::Removed(o) => old.contains_key(o.name) && !new.contains_key(o.name) && old[o.name]
            == o,
        DiffView::Changed(o, n) => {
            &&& o.name == n.name
            &&& old.contains_key(o.name) && old[o.name] == o
            &&& new.contains_key(o.name) && new[o.name] == n
            &&& !same_item(o, n)
        },
    }
}

/// `ds` holds, in some order, exactly one edit for each name whose item
/// differs between `old` and `new`, and nothing else.
pub open spec fn is_diff_of(
    old: Map<Seq<char>, ItemView>,
    new: Map<Seq<char>, ItemView>,
    ds: Seq<DiffView>,
) -> bool {
    &&& forall|i: int| 0 <= i < ds.len() ==> is_edit(old, new, #[trigger] ds[i])
    &&& forall|i: int, j: int|
        0 <= i < ds.len() && 0 <= j < ds.len() && i != j ==> edit_name(#[trigger] ds[i])
            != edit_name(#[trigger] ds[j])
    &&& forall|k: Seq<char>|
        #[trigger] differs(old, new, k) ==> exists|i: int|
            0 <= i < ds.len() && edit_name(#[trigger] ds[i]) == k
}

pub open spec fn edit_views(ds: Seq<Diff>) -> Seq<DiffView> {
    ds.map_values(|d: Diff| d@)
}

/// The edits from `old` to `new`: `Removed` for each name only `old` has,
/// `Added` for each name only `new` has, `Changed` for each name both have
/// with items that are not the same. The order is unspecified.
#[verifier::rlimit(100)]
pub fn diff(old: &Program, new: &Program) -> (r: Vec<Diff>)
    requires
        old.wf(),
        new.wf(),
    ensures
        is_diff_of(old@, new@, edit_views(r@)),
{
    let ghost ov = old.item_views();
    let ghost nv = new.item_views();
    let mut diffs: Vec<Diff> = Vec::new();
    let mut i: usize = 0;
    while i < old.items.len()
        invariant
            ov == old.item_views(),
            nv == new.item_views(),
            names_distinct(ov),
            names_distinct(nv),
            i <= ov.len(),
            forall|a: int|
                0 <= a < diffs@.len() ==> is_edit(old@, new@, #[trigger] edit_views(diffs@)[a]),
            forall|a: int|
                0 <= a < diffs@.len() ==> exists|b: int|
                    0 <= b < i && edit_name(#[trigger] edit_views(diffs@)[a]) == ov[b].name,
            forall|a: int, b: int|
                0 <= a < diffs@.len() && 0 <= b < diffs@.len() && a != b ==> edit_name(
                    #[trigger] edit_views(diffs@)[a],
                ) != edit_name(#[trigger] edit_views(diffs@)[b]),
            forall|b: int|
                0 <= b < i && differs(old@, new@, #[trigger] ov[b].name) ==> exists|a: int|
                    0 <= a < diffs@.len() && edit_name(#[trigger] edit_views(diffs@)[a])
                        == ov[b].name,
        decreases ov.len() - i,
    {
        let item = &old.items[i];
        let ghost k = ov[i as int].name;
        assert(ov[i as int] == item@);
        proof {
            lemma_map_of_index(ov, i as int);
        }
        let ghost before = edit_views(diffs@);
        let mut pushed = false;
        match position_of(&new.items, &item.name) {
            None => {
                diffs.push(Diff::Removed(item.copy()));
                pushed = true;
            },
            Some(j) => {
                assert(nv[j as int] == new.items@[j as int]@);
                proof {
                    lemma_map_of_index(nv, j as int);
                }
                if !item.same_as(&new.items[j]) {
                    diffs.push(Diff::Changed(item.copy(), new.items[j].copy()));
                    pushed = true;
                }
            },
        }
        assert(edit_views(diffs@).subrange(0, before.len() as int) =~= before);
        assert forall|a: int| 0 <= a < before.len() implies edit_name(
            #[trigger] edit_views(diffs@)[a],
        ) != k by {
            assert(edit_views(diffs@)[a] == before[a]);
            let b = choose|b: int| 0 <= b < i && edit_name(before[a]) == ov[b].name;
        }
        if pushed {
            assert(edit_name(edit_views(diffs@)[before.len() as int]) == k);
        }
        assert forall|a: int| 0 <= a < diffs@.len() implies is_edit(
            old@,
            new@,
            #[trigger] edit_views(diffs@)[a],
        ) && exists|b: int| 0 <= b < i + 1 && edit_name(edit_views(diffs@)[a]) == ov[b].name by {
            if a < before.len() {
                assert(edit_views(diffs@)[a] == before[a]);
                let b = choose|b: int| 0 <= b < i && edit_name(before[a]) == ov[b].name;
                assert(edit_name(edit_views(diffs@)[a]) == ov[b].name);
            } else {
                assert(edit_name(edit_views(diffs@)[a]) == ov[i as int].name);
            }
        }
        assert forall|a: int, b: int|
            0 <= a < diffs@.len() && 0 <= b < diffs@.len() && a != b implies edit_name(
            #[trigger] edit_views(diffs@)[a],
        ) != edit_name(#[trigger] edit_views(diffs@)[b]) by {
            if a < before.len() {
                assert(edit_views(diffs@)[a] == before[a]);
            }
            if b < before.len() {
                assert(edit_views(diffs@)[b] == before[b]);
            }
        }
        i += 1;
    }
    let ghost mid = diffs@.len();
    let mut j: usize = 0;
    while j < new.items.len()
        invariant
            ov == old.item_views(),
            nv == new.item_views(),
            names_distinct(ov),
            names_distinct(nv),
            j <= nv.len(),
            mid <= diffs@.len(),
            forall|a: int|
                0 <= a < diffs@.len() ==> is_edit(old@, new@, #[trigger] edit_views(diffs@)[a]),
            forall|a: int|
                0 <= a < mid ==> has_name(ov, edit_name(#[trigger] edit_views(diffs@)[a])),
            forall|a: int|
                mid <= a < diffs@.len() ==> exists|b: int|
                    0 <= b < j && edit_name(#[trigger] edit_views(diffs@)[a]) == nv[b].name,
            forall|a: int, b: int|
                0 <= a < diffs@.len() && 0 <= b < diffs@.len() && a != b ==> edit_name(
                    #[trigger] edit_views(diffs@)[a],
                ) != edit_name(#[trigger] edit_views(diffs@)[b]),
            forall|b: int|
                0 <= b < ov.len() && differs(old@, new@, #[trigger] ov[b].name) ==> exists|a: int|
                    0 <= a < diffs@.len() && edit_name(#[trigger] edit_views(diffs@)[a])
                        == ov[b].name,
            forall|b: int|
                0 <= b < j && !has_name(ov, #[trigger] nv[b].name) ==> exists|a: int|
                    0 <= a < diffs@.len() && edit_name(#[trigger] edit_views(diffs@)[a])
                        == nv[b].name,
        decreases nv.len() - j,
    {
        let item = &new.items[j];
        let ghost k = nv[j as int].name;
        assert(nv[j as int] == item@);
        proof {
            lemma_map_of_index(nv, j as int);
        }
        let ghost before = edit_views(diffs@);
        match position_of(&old.items, &item.name) {
            None => {
                diffs.push(Diff::Added(item.copy()));
                assert(edit_views(diffs@).subrange(0, before.len() as int) =~= before);
                assert forall|a: int| 0 <= a < before.len() implies edit_name(
                    #[trigger] edit_views(diffs@)[a],
                ) != k by {
                    assert(edit_views(diffs@)[a] == before[a]);
                    if a < mid {
                        assert(has_name(ov, edit_name(before[a])));
                    } else {
                        let b = choose|b: int| 0 <= b < j && edit_name(before[a]) == nv[b].name;
                    }
                }
                assert(edit_name(edit_views(diffs@)[before.len() as int]) == k);
            },
            Some(p) => {
                assert(ov[p as int] == old.items@[p as int]@);
            },
        }
        assert(edit_views(diffs@).subrange(0, before.len() as int) =~= before);
        assert forall|a: int| 0 <= a < diffs@.len() implies is_edit(
            old@,
            new@,
            #[trigger] edit_views(diffs@)[a],
        ) && (a < mid ==> has_name(ov, edit_name(edit_views(diffs@)[a]))) && (mid <= a ==> exists|
            b: int,
        |
            0 <= b < j + 1 && edit_name(edit_views(diffs@)[a]) == nv[b].name) by {
            if a < before.len() {
                assert(edit_views(diffs@)[a] == before[a]);
                if mid <= a {
                    let b = choose|b: int| 0 <= b < j && edit_name(before[a]) == nv[b].name;
                    assert(edit_name(edit_views(diffs@)[a]) == nv[b].name);
                }
            } else {
                assert(edit_name(edit_views(diffs@)[a]) == nv[j as int].name);
            }
        }
        assert forall|a: int, b: int|
            0 <= a < diffs@.len() && 0 <= b < diffs@.len() && a != b implies edit_name(
            #[trigger] edit_views(diffs@)[a],
        ) != edit_name(#[trigger] edit_views(diffs@)[b]) by {
            if a < before.len() {
                assert(edit_views(diffs@)[a] == before[a]);
            }
            if b < before.len() {
                assert(edit_views(diffs@)[b] == before[b]);
            }
        }
        assert forall|b: int| 0 <= b < j + 1 && !has_name(ov, #[trigger] nv[b].name) implies exists|
            a: int,
        | 0 <= a < diffs@.len() && edit_name(edit_views(diffs@)[a]) == nv[b].name by {
            if b < j {
                let a = choose|a: int|
                    0 <= a < before.len() && edit_name(#[trigger] before[a]) == nv[b].name;
                assert(edit_views(diffs@)[a] == before[a]);
            } else {
                assert(edit_name(edit_views(diffs@)[before.len() as int]) == nv[b].name);
            }
        }
        j += 1;
    }
    let ghost r = edit_views(diffs@);
    assert forall|k: Seq<char>| #[trigger] differs(old@, new@, k) implies exists|a: int|
        0 <= a < r.len() && edit_name(#[trigger] r[a]) == k by {
        if has_name(ov, k) {
            let b = choose|b: int| 0 <= b < ov.len() && (#[trigger] ov[b]).name == k;
            assert(differs(old@, new@, ov[b].name));
        } else {
            assert(new@.contains_key(k));
            let b = choose|b: int| 0 <= b < nv.len() && (#[trigger] nv[b]).name == k;
            assert(!has_name(ov, nv[b].name));
        }
    }
    diffs
}

/// Each name falls in exactly one class: `Added` when only the new program
/// has it, `Removed` when only the old one has it, `Changed` when both have
/// it with items that are not the same, and no edit at all otherwise.
pub proof fn lemma_diff_classifies(
    old: Map<Seq<char>, ItemView>,
    new: Map<Seq<char>, ItemView>,
    ds: Seq<DiffView>,
    k: Seq<char>,
)
    requires
        is_diff_of(old, new, ds),
    ensures
        (exists|i: int| 0 <= i < ds.len() && #[trigger] ds[i] is Added && edit_name(ds[i]) == k)
            <==> (!old.contains_key(k) && new.contains_key(k)),
        (exists|i: int| 0 <= i < ds.len() && #[trigger] ds[i] is Removed && edit_name(ds[i]) == k)
            <==> (old.contains_key(k) && !new.contains_key(k)),
        (exists|i: int| 0 <= i < ds.len() && #[trigger] ds[i] is Changed && edit_name(ds[i]) == k)
            <==> (old.contains_key(k) && new.contains_key(k) && !same_item(old[k], new[k])),
        (forall|i: int| 0 <= i < ds.len() ==> edit_name(#[trigger] ds[i]) != k) <==> !differs(
            old,
            new,
            k,
        ),
{
    if differs(old, new, k) {
        let i = choose|i: int| 0 <= i < ds.len() && edit_name(#[trigger] ds[i]) == k;
        assert(is_edit(old, new, ds[i]));
    }
    assert forall|i: int| 0 <= i < ds.len() && edit_name(#[trigger] ds[i]) == k implies differs(
        old,
        new,
        k,
    ) by {
        assert(is_edit(old, new, ds[i]));
    }
}

/// Two equal programs have no edits between them.
pub proof fn lemma_diff_of_equal_is_empty(m: Map<Seq<char>, ItemView>, ds: Seq<DiffView>)
    requires
        is_diff_of(m, m, ds),
    ensures
        ds.len() == 0,
{
    if ds.len() > 0 {
        assert(is_edit(m, m, ds[0]));
    }
}

} // verus!
