//! What the partition of a population into chunks is.
//!
//! The leading parts of codes form a tree: the empty one at the root, and
//! under each one the ten that are one digit longer. A leading part whose
//! population is within the target is not cut any further. One that is
//! larger is split: each of its ten children that reaches the target is
//! treated in the same way, and the smaller ones are bundled, in the order
//! of their digits, into groups that stay within the target.

use vstd::prelude::*;
use crate::digits::{
    child, digit_char, digit_value, is_code, is_code_prefix, is_digit, is_digits,
    lemma_digit_round_trip, CODE_LENGTH,
};
use crate::population::{population, Rows};

verus! {

/// Whether no full code under `root` holds more people than `target`. Where
/// one does, the tree under `root` cannot be cut into chunks within the
/// target.
pub open spec fn fits_under(rows: Rows, target: u64, root: Seq<char>) -> bool {
    forall|code: Seq<char>|
        is_code(code) && root.is_prefix_of(code) ==> #[trigger] population(rows, code) <= target
}

/// Whether no full code at all holds more people than `target`.
pub open spec fn fits(rows: Rows, target: u64) -> bool {
    fits_under(rows, target, Seq::empty())
}

/// Whether the partition of the tree under `root` gives `key` a chunk:
/// `key` lies under `root`, everything from `root` down to `key` is larger
/// than the target and so was split, and `key` itself is within the target.
pub open spec fn assigned(rows: Rows, target: u64, root: Seq<char>, key: Seq<char>) -> bool {
    &&& root.is_prefix_of(key)
    &&& is_code_prefix(key)
    &&& forall|j: int|
        root.len() <= j < key.len() ==> population(rows, #[trigger] key.take(j)) > target
    &&& population(rows, key) <= target
}

/// The state of the bundling under `parent` once the children with the
/// digits below `d` have been looked at: the index of the group that is
/// being filled, and the population it holds so far. A child that reaches
/// the target is no leftover and is passed over. A leftover that would take
/// the group over the target starts the next group.
pub open spec fn grouping(rows: Rows, target: u64, parent: Seq<char>, d: int) -> (nat, nat)
    decreases d,
{
    if d <= 0 {
        (0, 0)
    } else {
        let (index, load) = grouping(rows, target, parent, d - 1);
        let size = population(rows, child(parent, d - 1));
        if size >= target {
            (index, load)
        } else if load + size > target {
            (index + 1, size)
        } else {
            (index, load + size)
        }
    }
}

/// The index of the group that takes the leftover child of `parent` with
/// the digit `d`.
pub open spec fn group_of(rows: Rows, target: u64, parent: Seq<char>, d: int) -> nat {
    grouping(rows, target, parent, d + 1).0
}

/// The name of the group of leftovers of `parent` with the given index: the
/// parent, an underscore, and the index. A parent has at most ten leftovers,
/// so the index is written with one digit.
pub open spec fn group_id(parent: Seq<char>, index: nat) -> Seq<char> {
    parent.push('_').push(digit_char(index as int))
}

/// The chunk of a key that the partition under `root` assigns: the key
/// itself where it is a chunk of its own (the root, or a key that holds
/// the target exactly), and else the group of leftovers of its parent that
/// it was bundled into.
pub open spec fn chunk_id(rows: Rows, target: u64, root: Seq<char>, key: Seq<char>) -> Seq<char> {
    if key == root || population(rows, key) == target {
        key
    } else {
        group_id(
            key.drop_last(),
            group_of(rows, target, key.drop_last(), digit_value(key.last())),
        )
    }
}

/// The chunks of the tree under `root`: each assigned key with its chunk.
pub open spec fn subtree_chunks(
    rows: Rows,
    target: u64,
    root: Seq<char>,
) -> Map<Seq<char>, Seq<char>> {
    Map::new(
        |key: Seq<char>| assigned(rows, target, root, key),
        |key: Seq<char>| chunk_id(rows, target, root, key),
    )
}

/// The chunks of the whole tree.
pub open spec fn chunk_map(rows: Rows, target: u64) -> Map<Seq<char>, Seq<char>> {
    subtree_chunks(rows, target, Seq::empty())
}

/// The group that is being filled never holds more than the target, and its
/// index stays below the number of children looked at.
pub proof fn lemma_grouping_bounds(rows: Rows, target: u64, parent: Seq<char>, d: int)
    ensures
        grouping(rows, target, parent, d).1 <= target,
        d <= 0 ==> grouping(rows, target, parent, d) == (0nat, 0nat),
        d >= 1 ==> grouping(rows, target, parent, d).0 <= d - 1,
    decreases d,
{
    if d > 0 {
        lemma_grouping_bounds(rows, target, parent, d - 1);
    }
}

/// Children that reach the target leave the bundling as it was.
pub proof fn lemma_grouping_skip(rows: Rows, target: u64, parent: Seq<char>, from: int, to: int)
    requires
        from <= to,
        forall|e: int| from <= e < to ==> population(rows, #[trigger] child(parent, e)) >= target,
    ensures
        grouping(rows, target, parent, to) == grouping(rows, target, parent, from),
    decreases to - from,
{
    if from < to {
        lemma_grouping_skip(rows, target, parent, from, to - 1);
        if to > 0 {
            assert(population(rows, child(parent, to - 1)) >= target);
        }
    }
}

/// Under a root that is within the target, the root alone is assigned.
pub proof fn lemma_leaf_subtree(rows: Rows, target: u64, root: Seq<char>, key: Seq<char>)
    requires
        is_code_prefix(root),
        population(rows, root) <= target,
    ensures
        assigned(rows, target, root, key) <==> key == root,
{
    if assigned(rows, target, root, key) {
        if key.len() > root.len() {
            assert(key.take(root.len() as int) =~= root);
        }
        assert(key =~= root);
    }
    if key == root {
        assert(root.is_prefix_of(root));
    }
}

/// Under a root that is split, the keys assigned under a child that reaches
/// the target are those assigned under the root that pass through that
/// child, each with the same chunk.
pub proof fn lemma_descend(rows: Rows, target: u64, root: Seq<char>, d: int, key: Seq<char>)
    requires
        is_code_prefix(root),
        population(rows, root) > target,
        0 <= d < 10,
        population(rows, child(root, d)) >= target,
    ensures
        assigned(rows, target, child(root, d), key) <==> assigned(rows, target, root, key)
            && key.len() > root.len() && key[root.len() as int] == digit_char(d),
        assigned(rows, target, child(root, d), key) ==> chunk_id(rows, target, child(root, d), key)
            == chunk_id(rows, target, root, key),
{
    let below = child(root, d);
    let n = root.len() as int;
    if assigned(rows, target, below, key) {
        assert(key[n] == below[n]);
        assert(root =~= key.subrange(0, n));
        assert forall|j: int| n <= j < key.len() implies population(rows, #[trigger] key.take(j))
            > target by {
            if j == n {
                assert(key.take(j) =~= root);
            }
        }
        if key == below {
            assert(population(rows, key) == target);
        }
    }
    if assigned(rows, target, root, key) && key.len() > n && key[n] == digit_char(d) {
        assert(below =~= key.subrange(0, n + 1));
    }
}

/// Under a root that is split, a child below the target is assigned, and
/// its chunk is the group that the bundling puts it into.
pub proof fn lemma_leftover(rows: Rows, target: u64, root: Seq<char>, d: int)
    requires
        is_code_prefix(root),
        root.len() < CODE_LENGTH,
        population(rows, root) > target,
        0 <= d < 10,
        population(rows, child(root, d)) < target,
    ensures
        assigned(rows, target, root, child(root, d)),
        chunk_id(rows, target, root, child(root, d)) == group_id(
            root,
            group_of(rows, target, root, d),
        ),
{
    let below = child(root, d);
    let n = root.len() as int;
    lemma_digit_round_trip();
    assert(root =~= below.subrange(0, n));
    assert(below.drop_last() =~= root);
    assert(below.last() == digit_char(d));
    assert forall|j: int| n <= j < below.len() implies population(rows, #[trigger] below.take(j))
        > target by {
        assert(below.take(j) =~= root);
    }
    assert(is_digits(below));
}

/// Under a root that is split, every assigned key passes through one of the
/// ten children, and where that child is below the target the key is that
/// child.
pub proof fn lemma_split_cover(rows: Rows, target: u64, root: Seq<char>, key: Seq<char>)
    requires
        is_code_prefix(root),
        population(rows, root) > target,
        assigned(rows, target, root, key),
    ensures
        key.len() > root.len(),
        is_digit(key[root.len() as int]),
        key.take(root.len() as int + 1) == child(root, digit_value(key[root.len() as int])),
        population(rows, key.take(root.len() as int + 1)) < target ==> key.len() == root.len() + 1,
{
    let n = root.len() as int;
    lemma_digit_round_trip();
    if key.len() == n {
        assert(key =~= root);
    }
    assert(key.take(n + 1) =~= child(root, digit_value(key[n])));
    if key.len() > n + 1 {
        assert(population(rows, key.take(n + 1)) > target);
    } else {
        assert(key.take(n + 1) =~= key);
    }
}

/// The chunks that descending into the children of `root` with digits below
/// `d` gives: those of the assigned keys that pass through such a child that
/// reaches the target.
pub open spec fn descent_chunks(
    rows: Rows,
    target: u64,
    root: Seq<char>,
    d: int,
) -> Map<Seq<char>, Seq<char>> {
    Map::new(
        |key: Seq<char>|
            assigned(rows, target, root, key) && key.len() > root.len() && digit_value(
                key[root.len() as int],
            ) < d && population(rows, key.take(root.len() as int + 1)) >= target,
        |key: Seq<char>| chunk_id(rows, target, root, key),
    )
}

/// The chunks that bundling the leftover children of `root` with digits
/// below `d` gives.
pub open spec fn grouped_chunks(
    rows: Rows,
    target: u64,
    root: Seq<char>,
    d: int,
) -> Map<Seq<char>, Seq<char>> {
    Map::new(
        |key: Seq<char>|
            assigned(rows, target, root, key) && key.len() == root.len() + 1 && digit_value(
                key[root.len() as int],
            ) < d && population(rows, key) < target,
        |key: Seq<char>| chunk_id(rows, target, root, key),
    )
}

/// Descending into one more child that reaches the target adds the chunks
/// of the tree under that child.
pub proof fn lemma_descent_step(rows: Rows, target: u64, root: Seq<char>, d: int)
    requires
        is_code_prefix(root),
        population(rows, root) > target,
        0 <= d < 10,
        population(rows, child(root, d)) >= target,
    ensures
        descent_chunks(rows, target, root, d + 1) == descent_chunks(
            rows,
            target,
            root,
            d,
        ).union_prefer_right(subtree_chunks(rows, target, child(root, d))),
{
    let wider = descent_chunks(rows, target, root, d + 1);
    let joined = descent_chunks(rows, target, root, d).union_prefer_right(
        subtree_chunks(rows, target, child(root, d)),
    );
    lemma_digit_round_trip();
    assert forall|key: Seq<char>| #[trigger]
        wider.contains_key(key) == joined.contains_key(key) && (wider.contains_key(key)
            ==> wider[key] == joined[key]) by {
        lemma_descend(rows, target, root, d, key);
        if assigned(rows, target, root, key) {
            lemma_split_cover(rows, target, root, key);
        }
    }
    assert(wider =~= joined);
}

/// A child below the target adds nothing to what descending gives.
pub proof fn lemma_descent_pass(rows: Rows, target: u64, root: Seq<char>, d: int)
    requires
        is_code_prefix(root),
        population(rows, root) > target,
        0 <= d < 10,
        population(rows, child(root, d)) < target,
    ensures
        descent_chunks(rows, target, root, d + 1) == descent_chunks(rows, target, root, d),
{
    let wider = descent_chunks(rows, target, root, d + 1);
    let narrower = descent_chunks(rows, target, root, d);
    lemma_digit_round_trip();
    assert forall|key: Seq<char>| wider.contains_key(key) == narrower.contains_key(key) by {
        if assigned(rows, target, root, key) {
            lemma_split_cover(rows, target, root, key);
        }
    }
    assert(wider =~= narrower);
}

/// Bundling passes over the children that reach the target, and gives the
/// leftover with the digit `d` the chunk of its group.
pub proof fn lemma_grouped_step(rows: Rows, target: u64, root: Seq<char>, from: int, d: int)
    requires
        is_code_prefix(root),
        root.len() < CODE_LENGTH,
        population(rows, root) > target,
        0 <= from <= d < 10,
        forall|e: int| from <= e < d ==> population(rows, #[trigger] child(root, e)) >= target,
        population(rows, child(root, d)) < target,
    ensures
        grouped_chunks(rows, target, root, d + 1) == grouped_chunks(
            rows,
            target,
            root,
            from,
        ).insert(child(root, d), group_id(root, group_of(rows, target, root, d))),
{
    let wider = grouped_chunks(rows, target, root, d + 1);
    let joined = grouped_chunks(rows, target, root, from).insert(
        child(root, d),
        group_id(root, group_of(rows, target, root, d)),
    );
    lemma_digit_round_trip();
    lemma_leftover(rows, target, root, d);
    assert forall|key: Seq<char>| #[trigger]
        wider.contains_key(key) == joined.contains_key(key) && (wider.contains_key(key)
            ==> wider[key] == joined[key]) by {
        if assigned(rows, target, root, key) && key.len() == root.len() + 1 {
            lemma_split_cover(rows, target, root, key);
            let e = digit_value(key[root.len() as int]);
            assert(key.take(root.len() as int + 1) =~= key);
            assert(key == child(root, e));
        }
    }
    assert(wider =~= joined);
}

/// Once all ten children were descended into or bundled, every assigned key
/// has its chunk.
pub proof fn lemma_split_complete(rows: Rows, target: u64, root: Seq<char>, from: int)
    requires
        is_code_prefix(root),
        population(rows, root) > target,
        0 <= from <= 10,
        forall|e: int| from <= e < 10 ==> population(rows, #[trigger] child(root, e)) >= target,
    ensures
        descent_chunks(rows, target, root, 10).union_prefer_right(
            grouped_chunks(rows, target, root, from),
        ) == subtree_chunks(rows, target, root),
{
    let joined = descent_chunks(rows, target, root, 10).union_prefer_right(
        grouped_chunks(rows, target, root, from),
    );
    let whole = subtree_chunks(rows, target, root);
    lemma_digit_round_trip();
    assert forall|key: Seq<char>| whole.contains_key(key) == joined.contains_key(key) by {
        if assigned(rows, target, root, key) {
            lemma_split_cover(rows, target, root, key);
            let e = digit_value(key[root.len() as int]);
            if population(rows, key.take(root.len() as int + 1)) < target {
                assert(key.take(root.len() as int + 1) =~= key);
                assert(key == child(root, e));
            }
        }
    }
    assert(joined =~= whole);
}

/// A child that reaches the target adds nothing to what bundling gives.
pub proof fn lemma_grouped_pass(rows: Rows, target: u64, root: Seq<char>, d: int)
    requires
        is_code_prefix(root),
        population(rows, root) > target,
        0 <= d < 10,
        population(rows, child(root, d)) >= target,
    ensures
        grouped_chunks(rows, target, root, d + 1) == grouped_chunks(rows, target, root, d),
{
    let wider = grouped_chunks(rows, target, root, d + 1);
    let narrower = grouped_chunks(rows, target, root, d);
    lemma_digit_round_trip();
    assert forall|key: Seq<char>| #[trigger]
        wider.contains_key(key) == narrower.contains_key(key) by {
        if assigned(rows, target, root, key) && key.len() == root.len() + 1 {
            lemma_split_cover(rows, target, root, key);
            assert(key.take(root.len() as int + 1) =~= key);
        }
    }
    assert(wider =~= narrower);
}

} // verus!
