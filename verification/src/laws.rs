//! What holds of every partition and of every classifier.

use vstd::prelude::*;
use crate::digits::{
    child, digit_char, digit_value, is_code, is_digit, lemma_digit_round_trip, CODE_LENGTH,
};
use crate::counting::{
    chunk_count, chunk_names, lemma_count_monotone, lemma_names_count, same_leftovers,
};
use crate::partition::{
    assigned, chunk_map, fits, group_id, group_of, grouping, lemma_grouping_bounds,
};
use crate::population::{lemma_population_push, population, valid_rows, Rows};
use crate::zip2010::{longest_match, Classifier};

verus! {

/// The population counted under the children of `prefix` with the digits
/// below `d`, all together.
pub open spec fn children_population(rows: Rows, prefix: Seq<char>, d: int) -> nat
    decreases d,
{
    if d <= 0 {
        0
    } else {
        children_population(rows, prefix, d - 1) + population(rows, child(prefix, d - 1))
    }
}

/// What one row with the given code adds to `children_population`.
spec fn share(code: Seq<char>, count: u64, prefix: Seq<char>, d: int) -> nat
    decreases d,
{
    if d <= 0 {
        0
    } else {
        share(code, count, prefix, d - 1) + if child(prefix, d - 1).is_prefix_of(code) {
            count as nat
        } else {
            0
        }
    }
}

/// A row whose code begins with `prefix` counts under exactly one child of
/// `prefix`, the one with the next digit of the code; another row counts
/// under none.
proof fn lemma_share(code: Seq<char>, count: u64, prefix: Seq<char>, d: int)
    requires
        is_code(code),
        prefix.len() < CODE_LENGTH,
        0 <= d <= 10,
    ensures
        share(code, count, prefix, d) == if prefix.is_prefix_of(code) && digit_value(
            code[prefix.len() as int],
        ) < d {
            count as nat
        } else {
            0
        },
    decreases d,
{
    if d > 0 {
        let below = child(prefix, d - 1);
        let n = prefix.len() as int;
        lemma_share(code, count, prefix, d - 1);
        lemma_digit_round_trip();
        if below.is_prefix_of(code) {
            assert(prefix =~= code.subrange(0, n));
            assert(code[n] == code.subrange(0, n + 1)[n]);
        }
        if prefix.is_prefix_of(code) && digit_value(code[n]) == d - 1 {
            assert(is_digit(code[n]));
            assert(below =~= code.subrange(0, n + 1));
        }
    }
}

/// One more row adds its share to what the children count.
proof fn lemma_children_population_push(
    rows: Rows,
    row: (Seq<char>, u64),
    prefix: Seq<char>,
    d: int,
)
    ensures
        children_population(rows.push(row), prefix, d) == children_population(rows, prefix, d)
            + share(row.0, row.1, prefix, d),
    decreases d,
{
    if d > 0 {
        lemma_children_population_push(rows, row, prefix, d - 1);
        lemma_population_push(rows, row, child(prefix, d - 1));
    }
}

/// No rows count nobody under any child.
proof fn lemma_children_population_empty(prefix: Seq<char>, d: int)
    ensures
        children_population(Seq::empty(), prefix, d) == 0,
    decreases d,
{
    if d > 0 {
        lemma_children_population_empty(prefix, d - 1);
    }
}

/// A leading part that is shorter than a code counts as many people as its
/// ten children together.
pub proof fn lemma_population_is_sum_of_children(rows: Rows, prefix: Seq<char>)
    requires
        valid_rows(rows),
        prefix.len() < CODE_LENGTH,
    ensures
        population(rows, prefix) == children_population(rows, prefix, 10),
    decreases rows.len(),
{
    if rows.len() == 0 {
        lemma_children_population_empty(prefix, 10);
        assert(rows =~= Seq::empty());
    } else {
        let earlier = rows.drop_last();
        let row = rows.last();
        assert(earlier.push(row) =~= rows);
        assert(is_code(rows[rows.len() - 1].0));
        assert forall|i: int| 0 <= i < earlier.len() implies is_code(#[trigger] earlier[i].0) by {
            assert(earlier[i] == rows[i]);
        }
        lemma_population_is_sum_of_children(earlier, prefix);
        lemma_children_population_push(earlier, row, prefix, 10);
        lemma_share(row.0, row.1, prefix, 10);
        if prefix.is_prefix_of(row.0) {
            lemma_digit_round_trip();
            assert(is_digit(row.0[prefix.len() as int]));
        }
    }
}

/// A leading part that is a chunk of its own holds at most the target.
pub proof fn lemma_leaf_within_target(rows: Rows, target: u64, key: Seq<char>)
    requires
        chunk_map(rows, target).contains_key(key),
        chunk_map(rows, target)[key] == key,
    ensures
        population(rows, key) <= target,
{
}

/// Whether the partition gives the child of `parent` with the digit `d` the
/// chunk `name`.
pub open spec fn is_member(
    rows: Rows,
    target: u64,
    parent: Seq<char>,
    name: Seq<char>,
    d: int,
) -> bool {
    chunk_map(rows, target).contains_key(child(parent, d)) && chunk_map(rows, target)[child(
        parent,
        d,
    )] == name
}

/// The population of the chunk `name` among the children of `parent` with
/// digits below `d`: the sum of the populations of those that the partition
/// gives that chunk.
pub open spec fn members_population(
    rows: Rows,
    target: u64,
    parent: Seq<char>,
    name: Seq<char>,
    d: int,
) -> nat
    decreases d,
{
    if d <= 0 {
        0
    } else {
        members_population(rows, target, parent, name, d - 1) + if is_member(
            rows,
            target,
            parent,
            name,
            d - 1,
        ) {
            population(rows, child(parent, d - 1))
        } else {
            0
        }
    }
}

/// Every leading part whose chunk is a group of leftovers of `parent` is one
/// of the ten children of `parent`.
pub proof fn lemma_group_members_are_children(
    rows: Rows,
    target: u64,
    parent: Seq<char>,
    index: nat,
    key: Seq<char>,
)
    requires
        chunk_map(rows, target).contains_key(key),
        chunk_map(rows, target)[key] == group_id(parent, index),
    ensures
        exists|d: int| 0 <= d < 10 && key == #[trigger] child(parent, d),
{
    let name = group_id(parent, index);
    lemma_digit_round_trip();
    assert(name[parent.len() as int] == '_');
    if key.len() == 0 || population(rows, key) == target {
        assert(key.len() == 0 ==> key =~= Seq::<char>::empty());
        assert(is_digit(key[parent.len() as int]));
    } else {
        let other = group_of(rows, target, key.drop_last(), digit_value(key.last()));
        assert(name.drop_last().drop_last() =~= parent);
        assert(group_id(key.drop_last(), other).drop_last().drop_last() =~= key.drop_last());
        assert(key.drop_last() == parent);
        let d = digit_value(key.last());
        assert(is_digit(key[key.len() - 1]));
        assert(key =~= child(parent, d));
    }
}

/// A group of leftovers holds at most the target: the populations of all
/// children of `parent` whose chunk is the group with the given index sum up
/// to no more. (By `lemma_group_members_are_children` nothing else has that
/// chunk.)
pub proof fn lemma_group_within_target(rows: Rows, target: u64, parent: Seq<char>, index: nat)
    ensures
        members_population(rows, target, parent, group_id(parent, index), 10) <= target,
{
    lemma_group_load(rows, target, parent, index, 10);
    lemma_grouping_bounds(rows, target, parent, 10);
}

/// The index that the name of a group is written with: names are written
/// with one digit, and no parent has more than ten groups.
spec fn written_index(index: nat) -> nat {
    if index >= 9 {
        9
    } else {
        index
    }
}

/// While the children are bundled, the members of a group so far hold
/// nothing before the group is opened, what the group holds while it is
/// being filled, and at most the target afterwards.
proof fn lemma_group_load(rows: Rows, target: u64, parent: Seq<char>, index: nat, d: int)
    requires
        0 <= d <= 10,
    ensures
        ({
            let (open, load) = grouping(rows, target, parent, d);
            let held = members_population(rows, target, parent, group_id(parent, index), d);
            if open < written_index(index) {
                held == 0
            } else if open == written_index(index) {
                held <= load
            } else {
                held <= target
            }
        }),
    decreases d,
{
    if d > 0 {
        let e = d - 1;
        let name = group_id(parent, index);
        lemma_group_load(rows, target, parent, index, e);
        lemma_grouping_bounds(rows, target, parent, e);
        lemma_grouping_bounds(rows, target, parent, d);
        if is_member(rows, target, parent, name, e) {
            let key = child(parent, e);
            lemma_digit_round_trip();
            assert(key.drop_last() =~= parent);
            assert(key.last() == digit_char(e));
            assert(key.len() != name.len());
            let other = group_of(rows, target, parent, e);
            assert(group_id(parent, other).last() == name.last());
            assert(other == written_index(index));
        }
    }
}

/// Among the leading parts of a code, the longest one that has a chunk
/// decides: where the leading part of `len` characters has a chunk and no
/// longer one up to `limit` has, the match is the chunk of that part.
pub proof fn lemma_longest_match_wins(
    chunks: Map<Seq<char>, Seq<char>>,
    code: Seq<char>,
    len: int,
    limit: int,
)
    requires
        0 <= len <= limit,
        chunks.contains_key(code.take(len)),
        forall|longer: int|
            len < longer <= limit ==> !chunks.contains_key(#[trigger] code.take(longer)),
    ensures
        longest_match(chunks, code, limit) == chunks[code.take(len)],
    decreases limit - len,
{
    if len < limit {
        lemma_longest_match_wins(chunks, code, len, limit - 1);
    }
}

/// Where no leading part of a code has a chunk, the match is the empty
/// name.
pub proof fn lemma_no_match_is_empty(chunks: Map<Seq<char>, Seq<char>>, code: Seq<char>, limit: int)
    requires
        forall|len: int| 0 <= len <= limit ==> !chunks.contains_key(#[trigger] code.take(len)),
    ensures
        longest_match(chunks, code, limit) == Seq::<char>::empty(),
    decreases limit + 1,
{
    if limit >= 0 {
        lemma_no_match_is_empty(chunks, code, limit - 1);
    }
}

/// The length of the shortest leading part of `code`, of at least `from`
/// characters, that is within the target.
proof fn lemma_first_within_target(
    rows: Rows,
    target: u64,
    code: Seq<char>,
    from: int,
) -> (len: int)
    requires
        is_code(code),
        fits(rows, target),
        0 <= from <= CODE_LENGTH,
        forall|j: int| 0 <= j < from ==> population(rows, #[trigger] code.take(j)) > target,
    ensures
        from <= len <= CODE_LENGTH,
        population(rows, code.take(len)) <= target,
        forall|j: int| 0 <= j < len ==> population(rows, #[trigger] code.take(j)) > target,
    decreases CODE_LENGTH - from,
{
    if population(rows, code.take(from)) <= target {
        from
    } else {
        if from == CODE_LENGTH {
            assert(code.take(from) =~= code);
            assert(Seq::<char>::empty().is_prefix_of(code));
        }
        lemma_first_within_target(rows, target, code, from + 1)
    }
}

/// Every full code has a chunk, whether any row counts it or not: where no
/// single code is larger than the target, exactly one leading part of the
/// code has a chunk in the partition, and the match for the code is that
/// chunk.
pub proof fn lemma_every_code_has_a_chunk(rows: Rows, target: u64, code: Seq<char>) -> (len: int)
    requires
        fits(rows, target),
        is_code(code),
    ensures
        0 <= len <= CODE_LENGTH,
        chunk_map(rows, target).contains_key(code.take(len)),
        forall|other: int|
            0 <= other <= CODE_LENGTH && other != len ==> !chunk_map(rows, target).contains_key(
                #[trigger] code.take(other),
            ),
        longest_match(chunk_map(rows, target), code, CODE_LENGTH as int) == chunk_map(
            rows,
            target,
        )[code.take(len)],
{
    let len = lemma_first_within_target(rows, target, code, 0);
    let key = code.take(len);
    assert(Seq::<char>::empty().is_prefix_of(key));
    assert forall|j: int| 0 <= j < key.len() implies population(rows, #[trigger] key.take(j))
        > target by {
        assert(key.take(j) =~= code.take(j));
    }
    assert(assigned(rows, target, Seq::empty(), key));
    assert forall|other: int| 0 <= other <= CODE_LENGTH && other != len implies !chunk_map(
        rows,
        target,
    ).contains_key(#[trigger] code.take(other)) by {
        let longer = code.take(other);
        if other > len {
            assert(longer.take(len) =~= key);
        }
    }
    lemma_longest_match_wins(chunk_map(rows, target), code, len, CODE_LENGTH as int);
    len
}

/// Two classifiers built for the same target from the same rows hold the
/// same chunks and give every code the same one.
pub proof fn lemma_same_rows_same_chunks(first: &Classifier, second: &Classifier, code: Seq<char>)
    requires
        first.wf(),
        second.wf(),
        first.rows() == second.rows(),
        first.target() == second.target(),
    ensures
        first@ == second@,
        first.chunk_of(code) == second.chunk_of(code),
{
}

/// A classifier gives every full code a chunk of its partition, whether any
/// row counts the code or not: exactly one leading part of the code has a
/// chunk, and that is the chunk of the code.
pub proof fn lemma_every_code_is_classified(classifier: &Classifier, code: Seq<char>) -> (len: int)
    requires
        classifier.wf(),
        is_code(code),
    ensures
        0 <= len <= CODE_LENGTH,
        classifier@.contains_key(code.take(len)),
        forall|other: int|
            0 <= other <= CODE_LENGTH && other != len ==> !classifier@.contains_key(
                #[trigger] code.take(other),
            ),
        classifier.chunk_of(code) == classifier@[code.take(len)],
{
    lemma_every_code_has_a_chunk(classifier.rows(), classifier.target(), code)
}

/// The partition has as many chunks, each with a name of its own, as
/// `chunk_count` finds in the whole tree.
pub proof fn lemma_chunk_names_count(rows: Rows, target: u64)
    ensures
        chunk_names(rows, target).finite(),
        chunk_names(rows, target).len() == chunk_count(rows, target, Seq::empty()),
{
    lemma_names_count(rows, target, Seq::empty());
}

/// For the same rows, a higher target gives no more chunks than a lower one
/// that no single code exceeds, where the two targets make the same
/// leftovers. (Where they do not, a child that reaches the lower target and
/// not the higher one is bundled with the leftovers for the higher target,
/// and that can open more groups than the child had chunks.)
pub proof fn lemma_higher_target_no_more_chunks(rows: Rows, lower: u64, higher: u64)
    requires
        lower <= higher,
        fits(rows, lower),
        same_leftovers(rows, lower, higher),
    ensures
        chunk_names(rows, lower).finite(),
        chunk_names(rows, higher).finite(),
        chunk_names(rows, higher).len() <= chunk_names(rows, lower).len(),
{
    lemma_chunk_names_count(rows, lower);
    lemma_chunk_names_count(rows, higher);
    lemma_count_monotone(rows, lower, higher, Seq::empty());
}

} // verus!
