//! How many chunks a partition has.

use vstd::prelude::*;
use vstd::set_lib::lemma_set_disjoint_lens;
use crate::digits::{
    child, digit_char, digit_value, is_code, is_code_prefix, is_digit, lemma_digit_round_trip,
    CODE_LENGTH,
};
use crate::partition::{
    assigned, chunk_map, descent_chunks, fits_under, group_id, group_of, grouped_chunks, grouping,
    lemma_descend, lemma_descent_pass, lemma_descent_step, lemma_grouped_pass, lemma_grouped_step,
    lemma_grouping_bounds, lemma_leaf_subtree, lemma_split_complete, subtree_chunks,
};
use crate::population::{population, Rows};

verus! {

/// The names of the chunks of the whole tree, each once.
pub open spec fn chunk_names(rows: Rows, target: u64) -> Set<Seq<char>> {
    chunk_map(rows, target).values()
}

/// The number of groups that bundling the leftovers of `parent` has opened
/// once the children with the digits below `d` have been looked at.
pub open spec fn groups_used(rows: Rows, target: u64, parent: Seq<char>, d: int) -> nat
    decreases d,
{
    if d <= 0 {
        0
    } else if population(rows, child(parent, d - 1)) >= target {
        groups_used(rows, target, parent, d - 1)
    } else {
        grouping(rows, target, parent, d).0 + 1
    }
}

/// The number of chunks of the tree under `root`: one where the root is
/// within the target, and else those of the children that reach the target
/// together with the groups of the others.
pub open spec fn chunk_count(rows: Rows, target: u64, root: Seq<char>) -> nat
    decreases CODE_LENGTH - root.len(), 11int,
{
    if population(rows, root) <= target {
        1
    } else if root.len() >= CODE_LENGTH {
        0
    } else {
        descent_count(rows, target, root, 10) + groups_used(rows, target, root, 10)
    }
}

/// The number of chunks of the trees under those children of `root` with
/// digits below `d` that reach the target.
pub open spec fn descent_count(rows: Rows, target: u64, root: Seq<char>, d: int) -> nat
    decreases CODE_LENGTH - root.len(), d,
{
    if d <= 0 || d > 10 || root.len() >= CODE_LENGTH {
        0
    } else {
        descent_count(rows, target, root, d - 1) + if population(rows, child(root, d - 1))
            >= target {
            chunk_count(rows, target, child(root, d - 1))
        } else {
            0
        }
    }
}

/// Two maps that share no key hold, together, the values of both.
proof fn lemma_union_values<K, V>(a: Map<K, V>, b: Map<K, V>)
    requires
        forall|k: K| !(a.contains_key(k) && b.contains_key(k)),
    ensures
        a.union_prefer_right(b).values() == a.values() + b.values(),
{
    let joined = a.union_prefer_right(b);
    assert forall|v: V| joined.values().contains(v) == (a.values() + b.values()).contains(v) by {
        if joined.values().contains(v) {
            let k = choose|k: K| #[trigger] joined.dom().contains(k) && joined[k] == v;
            if b.contains_key(k) {
                assert(b.contains_value(v));
            } else {
                assert(a.contains_key(k));
                assert(a.contains_value(v));
            }
        }
        if a.values().contains(v) {
            let k = choose|k: K| #[trigger] a.dom().contains(k) && a[k] == v;
            assert(joined.dom().contains(k) && joined[k] == v);
        }
        if b.values().contains(v) {
            let k = choose|k: K| #[trigger] b.dom().contains(k) && b[k] == v;
            assert(joined.dom().contains(k) && joined[k] == v);
        }
    }
    assert(joined.values() =~= a.values() + b.values());
}

/// A map with one more key holds one more value.
proof fn lemma_insert_values<K, V>(m: Map<K, V>, key: K, value: V)
    requires
        !m.contains_key(key),
    ensures
        m.insert(key, value).values() == m.values().insert(value),
{
    let wider = m.insert(key, value);
    assert forall|v: V| wider.values().contains(v) == m.values().insert(value).contains(v) by {
        if wider.values().contains(v) {
            let k = choose|k: K| #[trigger] wider.dom().contains(k) && wider[k] == v;
            if k != key {
                assert(m.dom().contains(k) && m[k] == v);
            }
        }
        if m.values().contains(v) {
            let k = choose|k: K| #[trigger] m.dom().contains(k) && m[k] == v;
            assert(wider.dom().contains(k) && wider[k] == v);
        }
        if v == value {
            assert(wider.dom().contains(key) && wider[key] == v);
        }
    }
    assert(wider.values() =~= m.values().insert(value));
}

/// The names of the first `n` groups of leftovers of `parent`.
pub open spec fn group_names(parent: Seq<char>, n: nat) -> Set<Seq<char>> {
    Set::new(|name: Seq<char>| exists|i: nat| i < n && name == #[trigger] group_id(parent, i))
}

/// The first `n` groups have `n` names.
proof fn lemma_group_names_len(parent: Seq<char>, n: nat)
    requires
        n <= 10,
    ensures
        group_names(parent, n).finite(),
        group_names(parent, n).len() == n,
    decreases n,
{
    if n == 0 {
        assert(group_names(parent, 0) =~= Set::empty());
    } else {
        let fewer = (n - 1) as nat;
        lemma_group_names_len(parent, fewer);
        lemma_group_names_grow(parent, fewer);
    }
}

/// The name of the next group is a new one.
proof fn lemma_group_names_grow(parent: Seq<char>, n: nat)
    requires
        n < 10,
    ensures
        group_names(parent, n + 1) == group_names(parent, n).insert(group_id(parent, n)),
        !group_names(parent, n).contains(group_id(parent, n)),
{
    let next = group_id(parent, n);
    lemma_digit_round_trip();
    if group_names(parent, n).contains(next) {
        let i = choose|i: nat| i < n && next == #[trigger] group_id(parent, i);
        assert(group_id(parent, i).last() == digit_char(i as int));
        assert(next.last() == digit_char(n as int));
        assert(digit_value(digit_char(i as int)) == i);
        assert(digit_value(digit_char(n as int)) == n);
    }
    assert forall|name: Seq<char>|
        group_names(parent, n + 1).contains(name) == group_names(parent, n).insert(next).contains(
            name,
        ) by {
        if group_names(parent, n + 1).contains(name) {
            let i = choose|i: nat| i < n + 1 && name == #[trigger] group_id(parent, i);
            if i < n {
                assert(group_names(parent, n).contains(name));
            }
        }
        if group_names(parent, n).contains(name) {
            let i = choose|i: nat| i < n && name == #[trigger] group_id(parent, i);
            assert(i < n + 1);
        }
        if name == next {
            assert(n < n + 1 && name == group_id(parent, n));
        }
    }
    assert(group_names(parent, n + 1) =~= group_names(parent, n).insert(next));
}

/// Bundling opens its groups one after the other: the number of groups
/// opened is one more than the index of the group that is being filled, once
/// there is a leftover, and no group is opened before.
proof fn lemma_groups_used(rows: Rows, target: u64, parent: Seq<char>, d: int)
    requires
        0 <= d <= 10,
    ensures
        groups_used(rows, target, parent, d) <= d,
        groups_used(rows, target, parent, d) == 0 ==> grouping(rows, target, parent, d) == (
            0nat,
            0nat,
        ),
        groups_used(rows, target, parent, d) > 0 ==> groups_used(rows, target, parent, d)
            == grouping(rows, target, parent, d).0 + 1,
        d > 0 ==> groups_used(rows, target, parent, d - 1) <= groups_used(rows, target, parent, d),
    decreases d,
{
    if d > 0 {
        lemma_groups_used(rows, target, parent, d - 1);
        lemma_grouping_bounds(rows, target, parent, d);
    }
}

/// The chunks that bundling gives are named after the groups it has opened.
proof fn lemma_grouped_names(rows: Rows, target: u64, root: Seq<char>, d: int)
    requires
        is_code_prefix(root),
        root.len() < CODE_LENGTH,
        population(rows, root) > target,
        0 <= d <= 10,
    ensures
        grouped_chunks(rows, target, root, d).values() == group_names(
            root,
            groups_used(rows, target, root, d),
        ),
    decreases d,
{
    lemma_digit_round_trip();
    if d == 0 {
        assert(grouped_chunks(rows, target, root, 0) =~= Map::empty());
        assert(Map::<Seq<char>, Seq<char>>::empty().values() =~= Set::empty());
        assert(group_names(root, 0) =~= Set::empty());
    } else {
        let e = d - 1;
        let before = grouped_chunks(rows, target, root, e);
        let used = groups_used(rows, target, root, e);
        lemma_grouped_names(rows, target, root, e);
        lemma_groups_used(rows, target, root, e);
        lemma_groups_used(rows, target, root, d);
        if population(rows, child(root, e)) >= target {
            lemma_grouped_pass(rows, target, root, e);
        } else {
            let index = group_of(rows, target, root, e);
            lemma_grouped_step(rows, target, root, e, e);
            assert(!before.contains_key(child(root, e))) by {
                assert(child(root, e)[root.len() as int] == digit_char(e));
            }
            lemma_insert_values(before, child(root, e), group_id(root, index));
            if index == used {
                lemma_group_names_grow(root, used);
            } else {
                assert(index + 1 == used);
                assert(group_names(root, used).contains(group_id(root, index)));
                assert(group_names(root, used).insert(group_id(root, index)) =~= group_names(
                    root,
                    used,
                ));
            }
        }
    }
}

/// The name of every chunk of the tree under `root` begins with `root`.
proof fn lemma_names_begin_with_root(rows: Rows, target: u64, root: Seq<char>, name: Seq<char>)
    requires
        subtree_chunks(rows, target, root).values().contains(name),
    ensures
        root.is_prefix_of(name),
{
    let chunks = subtree_chunks(rows, target, root);
    let key = choose|key: Seq<char>| #[trigger] chunks.dom().contains(key) && chunks[key] == name;
    assert(assigned(rows, target, root, key));
    if name != key {
        if key.len() == root.len() {
            assert(key =~= root);
        }
        assert(root =~= name.subrange(0, root.len() as int));
    }
}

/// The chunks that descending gives are as many as the trees under the
/// children that reach the target have, and the name of each goes on, after
/// the root, with the digit of one of those children.
proof fn lemma_descent_names(rows: Rows, target: u64, root: Seq<char>, d: int)
    requires
        is_code_prefix(root),
        root.len() < CODE_LENGTH,
        population(rows, root) > target,
        0 <= d <= 10,
    ensures
        descent_chunks(rows, target, root, d).values().finite(),
        descent_chunks(rows, target, root, d).values().len() == descent_count(
            rows,
            target,
            root,
            d,
        ),
        forall|name: Seq<char>| #[trigger]
            descent_chunks(rows, target, root, d).values().contains(name) ==> name.len()
                > root.len() && is_digit(name[root.len() as int]) && digit_value(
                name[root.len() as int],
            ) < d,
    decreases CODE_LENGTH - root.len(), d,
{
    lemma_digit_round_trip();
    if d == 0 {
        assert(descent_chunks(rows, target, root, 0) =~= Map::empty());
        assert(Map::<Seq<char>, Seq<char>>::empty().values() =~= Set::empty());
    } else {
        let e = d - 1;
        let before = descent_chunks(rows, target, root, e);
        lemma_descent_names(rows, target, root, e);
        if population(rows, child(root, e)) >= target {
            let below = subtree_chunks(rows, target, child(root, e));
            lemma_descent_step(rows, target, root, e);
            lemma_names_count(rows, target, child(root, e));
            assert forall|key: Seq<char>|
                !(before.contains_key(key) && below.contains_key(key)) by {
                if below.contains_key(key) {
                    lemma_descend(rows, target, root, e, key);
                }
            }
            lemma_union_values(before, below);
            assert forall|name: Seq<char>| below.values().contains(name) implies name.len()
                > root.len() && name[root.len() as int] == digit_char(e) by {
                lemma_names_begin_with_root(rows, target, child(root, e), name);
                assert(child(root, e)[root.len() as int] == name.subrange(
                    0,
                    root.len() as int + 1,
                )[root.len() as int]);
            }
            assert(before.values().disjoint(below.values()));
            lemma_set_disjoint_lens(before.values(), below.values());
        } else {
            lemma_descent_pass(rows, target, root, e);
        }
    }
}

/// The tree under `root` has as many chunks, each with a name of its own, as
/// `chunk_count` says.
pub proof fn lemma_names_count(rows: Rows, target: u64, root: Seq<char>)
    requires
        is_code_prefix(root),
    ensures
        subtree_chunks(rows, target, root).values().finite(),
        subtree_chunks(rows, target, root).values().len() == chunk_count(rows, target, root),
    decreases CODE_LENGTH - root.len(), 11int,
{
    let chunks = subtree_chunks(rows, target, root);
    if population(rows, root) <= target {
        assert forall|key: Seq<char>| assigned(rows, target, root, key) <==> key == root by {
            lemma_leaf_subtree(rows, target, root, key);
        }
        assert(chunks =~= Map::<Seq<char>, Seq<char>>::empty().insert(root, root));
        lemma_insert_values(Map::<Seq<char>, Seq<char>>::empty(), root, root);
        assert(Map::<Seq<char>, Seq<char>>::empty().values() =~= Set::empty());
    } else if root.len() >= CODE_LENGTH {
        assert forall|key: Seq<char>| !assigned(rows, target, root, key) by {
            if assigned(rows, target, root, key) {
                assert(key =~= root);
            }
        }
        assert(chunks =~= Map::empty());
        assert(Map::<Seq<char>, Seq<char>>::empty().values() =~= Set::empty());
    } else {
        let descended = descent_chunks(rows, target, root, 10);
        let grouped = grouped_chunks(rows, target, root, 10);
        lemma_digit_round_trip();
        lemma_split_complete(rows, target, root, 10);
        lemma_descent_names(rows, target, root, 10);
        lemma_grouped_names(rows, target, root, 10);
        lemma_groups_used(rows, target, root, 10);
        lemma_group_names_len(root, groups_used(rows, target, root, 10));
        assert forall|key: Seq<char>|
            !(descended.contains_key(key) && grouped.contains_key(key)) by {
            if grouped.contains_key(key) {
                assert(key.take(root.len() as int + 1) =~= key);
            }
        }
        lemma_union_values(descended, grouped);
        assert forall|name: Seq<char>| grouped.values().contains(name) implies name.len()
            > root.len() && name[root.len() as int] == '_' by {
            let i = choose|i: nat|
                i < groups_used(rows, target, root, 10) && name == #[trigger] group_id(root, i);
        }
        assert(descended.values().disjoint(grouped.values()));
        lemma_set_disjoint_lens(descended.values(), grouped.values());
    }
}

/// Whether two targets make the same leftovers: no child of a leading part
/// that both targets split holds at least `lower` and less than `higher`, so
/// that it would reach the one target and not the other.
pub open spec fn same_leftovers(rows: Rows, lower: u64, higher: u64) -> bool {
    forall|parent: Seq<char>, d: int|
        is_code_prefix(parent) && parent.len() < CODE_LENGTH && population(rows, parent) > higher
            && 0 <= d < 10 ==> !(lower <= #[trigger] population(rows, child(parent, d)) < higher)
}

/// Where every full code under `root` is within the target, the tree under
/// `root` has a chunk.
proof fn lemma_count_positive(rows: Rows, target: u64, root: Seq<char>)
    requires
        is_code_prefix(root),
        fits_under(rows, target, root),
    ensures
        chunk_count(rows, target, root) >= 1,
    decreases CODE_LENGTH - root.len(),
{
    if population(rows, root) > target {
        if root.len() == CODE_LENGTH {
            assert(root.is_prefix_of(root));
        }
        lemma_digit_round_trip();
        let first = child(root, 0);
        if population(rows, first) >= target {
            assert forall|code: Seq<char>|
                is_code(code) && first.is_prefix_of(code) implies #[trigger] population(
                rows,
                code,
            ) <= target by {
                assert(root =~= code.subrange(0, root.len() as int));
            }
            lemma_count_positive(rows, target, first);
            lemma_descent_count_grows(rows, target, root, 1, 10);
            assert(descent_count(rows, target, root, 0) == 0);
        } else {
            lemma_groups_used_grows(rows, target, root, 1, 10);
        }
    }
}

/// Looking at more children finds no fewer chunks by descending.
proof fn lemma_descent_count_grows(rows: Rows, target: u64, root: Seq<char>, from: int, to: int)
    requires
        0 <= from <= to <= 10,
    ensures
        descent_count(rows, target, root, from) <= descent_count(rows, target, root, to),
    decreases to - from,
{
    if from < to {
        lemma_descent_count_grows(rows, target, root, from, to - 1);
    }
}

/// Looking at more children opens no fewer groups.
proof fn lemma_groups_used_grows(rows: Rows, target: u64, parent: Seq<char>, from: int, to: int)
    requires
        0 <= from <= to <= 10,
    ensures
        groups_used(rows, target, parent, from) <= groups_used(rows, target, parent, to),
    decreases to - from,
{
    if from < to {
        lemma_groups_used_grows(rows, target, parent, from, to - 1);
        lemma_groups_used(rows, target, parent, to);
    }
}

/// Bundling the same leftovers for a higher target never runs ahead of
/// bundling them for a lower one: it is at an earlier group, or at the same
/// group with no more in it, and has opened no more groups.
proof fn lemma_grouping_coupled(rows: Rows, lower: u64, higher: u64, parent: Seq<char>, d: int)
    requires
        lower <= higher,
        0 <= d <= 10,
        forall|e: int|
            0 <= e < d ==> (#[trigger] population(rows, child(parent, e)) < lower <==> population(
                rows,
                child(parent, e),
            ) < higher),
    ensures
        ({
            let (high_index, high_load) = grouping(rows, higher, parent, d);
            let (low_index, low_load) = grouping(rows, lower, parent, d);
            high_index < low_index || (high_index == low_index && high_load <= low_load)
        }),
        groups_used(rows, higher, parent, d) <= groups_used(rows, lower, parent, d),
    decreases d,
{
    if d > 0 {
        lemma_grouping_coupled(rows, lower, higher, parent, d - 1);
        lemma_grouping_bounds(rows, lower, parent, d - 1);
        lemma_grouping_bounds(rows, higher, parent, d - 1);
        assert(population(rows, child(parent, d - 1)) < lower <==> population(
            rows,
            child(parent, d - 1),
        ) < higher);
    }
}

/// With the same leftovers, descending for a higher target finds no more
/// chunks than for a lower one.
proof fn lemma_descent_count_monotone(rows: Rows, lower: u64, higher: u64, root: Seq<char>, d: int)
    requires
        lower <= higher,
        is_code_prefix(root),
        root.len() < CODE_LENGTH,
        fits_under(rows, lower, root),
        same_leftovers(rows, lower, higher),
        population(rows, root) > higher,
        0 <= d <= 10,
    ensures
        descent_count(rows, higher, root, d) <= descent_count(rows, lower, root, d),
    decreases CODE_LENGTH - root.len(), d,
{
    if d > 0 {
        let below = child(root, d - 1);
        lemma_descent_count_monotone(rows, lower, higher, root, d - 1);
        assert(!(lower <= population(rows, below) < higher));
        if population(rows, below) >= higher {
            lemma_digit_round_trip();
            assert forall|code: Seq<char>|
                is_code(code) && below.is_prefix_of(code) implies #[trigger] population(
                rows,
                code,
            ) <= lower by {
                assert(root =~= code.subrange(0, root.len() as int));
            }
            lemma_count_monotone(rows, lower, higher, below);
        }
    }
}

/// With the same leftovers, the tree under `root` has no more chunks for a
/// higher target than for a lower one.
pub proof fn lemma_count_monotone(rows: Rows, lower: u64, higher: u64, root: Seq<char>)
    requires
        lower <= higher,
        is_code_prefix(root),
        fits_under(rows, lower, root),
        same_leftovers(rows, lower, higher),
    ensures
        chunk_count(rows, higher, root) <= chunk_count(rows, lower, root),
    decreases CODE_LENGTH - root.len(), 11int,
{
    if population(rows, root) <= lower {
    } else if population(rows, root) <= higher {
        lemma_count_positive(rows, lower, root);
    } else {
        if root.len() == CODE_LENGTH {
            assert(root.is_prefix_of(root));
        }
        lemma_descent_count_monotone(rows, lower, higher, root, 10);
        assert forall|e: int| 0 <= e < 10 implies (#[trigger] population(rows, child(root, e))
            < lower <==> population(rows, child(root, e)) < higher) by {
            assert(!(lower <= population(rows, child(root, e)) < higher));
        }
        lemma_grouping_coupled(rows, lower, higher, root, 10);
    }
}

} // verus!
