//! Building the chunks of a population table.

use vstd::prelude::*;
use vstd::hash_map::StringHashMap;
use vstd::string::StringExecFns;
use crate::digits::{
    child, child_prefix, digit_str, is_code, is_code_prefix, lemma_digit_round_trip, CODE_LENGTH,
};
use crate::partition::{
    assigned, descent_chunks, fits_under, group_id, group_of, grouped_chunks, grouping,
    lemma_descent_pass, lemma_descent_step, lemma_grouped_step, lemma_grouping_bounds,
    lemma_grouping_skip, lemma_leaf_subtree, lemma_split_complete, subtree_chunks,
};
use crate::population::{population, PrefixPopulation, Rows};

verus! {

/// A map from keys to chunk names, each name read as its characters.
pub open spec fn chunk_ids(held: Map<Seq<char>, String>) -> Map<Seq<char>, Seq<char>> {
    held.map_values(|name: String| name@)
}

/// Whether `digits` lists, in rising order, the digits below `upto` of the
/// children of `root` that are below the target.
spec fn lists_leftovers(
    rows: Rows,
    target: u64,
    root: Seq<char>,
    digits: Seq<int>,
    upto: int,
) -> bool {
    &&& forall|i: int|
        0 <= i < digits.len() ==> 0 <= #[trigger] digits[i] < upto && population(
            rows,
            child(root, digits[i]),
        ) < target
    &&& forall|i: int, j: int| 0 <= i < j < digits.len() ==> digits[i] < digits[j]
    &&& forall|e: int|
        0 <= e < upto && population(rows, #[trigger] child(root, e)) < target ==> digits.contains(e)
}

/// The digit from which the children are still to be bundled once the first
/// `i` leftovers were.
spec fn bundled_upto(digits: Seq<int>, i: int) -> int {
    if i <= 0 {
        0
    } else {
        digits[i - 1] + 1
    }
}

/// One more child belongs on the list where it is below the target, and
/// leaves the list complete where it is not.
proof fn lemma_leftovers_next(rows: Rows, target: u64, root: Seq<char>, digits: Seq<int>, d: int)
    requires
        lists_leftovers(rows, target, root, digits, d),
        0 <= d,
    ensures
        population(rows, child(root, d)) < target ==> lists_leftovers(
            rows,
            target,
            root,
            digits.push(d),
            d + 1,
        ),
        population(rows, child(root, d)) >= target ==> lists_leftovers(
            rows,
            target,
            root,
            digits,
            d + 1,
        ),
{
    if population(rows, child(root, d)) < target {
        let longer = digits.push(d);
        assert forall|e: int|
            0 <= e < d + 1 && population(rows, #[trigger] child(root, e))
                < target implies longer.contains(e) by {
            if e < d {
                let i = choose|i: int| 0 <= i < digits.len() && digits[i] == e;
                assert(longer[i] == e);
            } else {
                assert(longer[digits.len() as int] == e);
            }
        }
    }
}

/// Between one leftover on the list and the next, and after the last, every
/// child reaches the target.
proof fn lemma_leftovers_gap(rows: Rows, target: u64, root: Seq<char>, digits: Seq<int>, i: int)
    requires
        lists_leftovers(rows, target, root, digits, 10),
        0 <= i <= digits.len(),
    ensures
        0 <= bundled_upto(digits, i) <= 10,
        i < digits.len() ==> bundled_upto(digits, i) <= digits[i],
        forall|e: int|
            bundled_upto(digits, i) <= e < (if i < digits.len() {
                digits[i]
            } else {
                10
            }) ==> population(rows, #[trigger] child(root, e)) >= target,
{
    assert forall|e: int|
        bundled_upto(digits, i) <= e < (if i < digits.len() {
            digits[i]
        } else {
            10
        }) implies population(rows, #[trigger] child(root, e)) >= target by {
        if population(rows, child(root, e)) < target {
            let j = choose|j: int| 0 <= j < digits.len() && digits[j] == e;
            if j < i {
                assert(digits[j] <= digits[i - 1]);
            }
        }
    }
}

impl PrefixPopulation {
    /// Adds to `chunk_id_for_prefix` the chunks of the tree under `prefix`:
    /// every key that the partition under `prefix` assigns, with the name of
    /// its chunk. What the map held under other keys stays.
    pub fn build_chunks_recursive(
        &self,
        target_population: u64,
        prefix: &str,
        chunk_id_for_prefix: &mut StringHashMap<String>,
    )
        requires
            self.wf(),
            is_code_prefix(prefix@),
            fits_under(self@, target_population, prefix@),
        ensures
            chunk_ids(final(chunk_id_for_prefix)@) == chunk_ids(
                old(chunk_id_for_prefix)@,
            ).union_prefer_right(subtree_chunks(self@, target_population, prefix@)),
        decreases CODE_LENGTH - prefix@.len(),
    {
        let ghost rows = self@;
        let ghost root = prefix@;
        let ghost start = chunk_ids(chunk_id_for_prefix@);
        let prefix_pop = self.lookup(prefix);
        if prefix_pop <= target_population {
            // Small enough to fill a chunk on its own.
            chunk_id_for_prefix.insert(prefix.to_owned(), prefix.to_owned());
            proof {
                assert forall|key: Seq<char>|
                    assigned(rows, target_population, root, key) <==> key == root by {
                    lemma_leaf_subtree(rows, target_population, root, key);
                }
                assert(chunk_ids(chunk_id_for_prefix@) =~= start.union_prefer_right(
                    subtree_chunks(rows, target_population, root),
                ));
            }
        } else {
            proof {
                if root.len() == CODE_LENGTH {
                    assert(is_code(root) && root.is_prefix_of(root));
                }
                lemma_digit_round_trip();
                assert(descent_chunks(rows, target_population, root, 0) =~= Map::empty());
                assert(start.union_prefer_right(Map::empty()) =~= start);
            }
            // Recurse into each child that reaches the target, and collect
            // the smaller ones.
            let mut leftovers: Vec<String> = Vec::new();
            let ghost mut digits: Seq<int> = Seq::empty();
            for digit in 0u8..10
                invariant
                    self.wf(),
                    rows == self@,
                    root == prefix@,
                    is_code_prefix(root),
                    root.len() < CODE_LENGTH,
                    fits_under(rows, target_population, root),
                    population(rows, root) > target_population,
                    chunk_ids(chunk_id_for_prefix@) == start.union_prefer_right(
                        descent_chunks(rows, target_population, root, digit as int),
                    ),
                    lists_leftovers(rows, target_population, root, digits, digit as int),
                    leftovers@.len() == digits.len(),
                    forall|i: int|
                        0 <= i < digits.len() ==> (#[trigger] leftovers@[i])@ == child(
                            root,
                            digits[i],
                        ),
            {
                let below = child_prefix(prefix, digit);
                let below_pop = self.lookup(below.as_str());
                proof {
                    lemma_leftovers_next(rows, target_population, root, digits, digit as int);
                }
                if below_pop >= target_population {
                    proof {
                        assert forall|code: Seq<char>|
                            is_code(code) && below@.is_prefix_of(code) implies #[trigger]
                            population(rows, code) <= target_population by {
                            assert(root =~= code.subrange(0, root.len() as int));
                        }
                    }
                    self.build_chunks_recursive(
                        target_population,
                        below.as_str(),
                        chunk_id_for_prefix,
                    );
                    proof {
                        lemma_descent_step(rows, target_population, root, digit as int);
                    }
                } else {
                    leftovers.push(below);
                    proof {
                        lemma_descent_pass(rows, target_population, root, digit as int);
                        digits = digits.push(digit as int);
                    }
                }
            }
            // Bundle the leftovers into groups named after the prefix. The
            // empty ones are bundled too, so that a code that no row counts
            // still falls into some chunk.
            let ghost descended = start.union_prefer_right(
                descent_chunks(rows, target_population, root, 10),
            );
            let mut chunk_idx: u64 = 0;
            let mut chunk_pop: u64 = 0;
            proof {
                assert(grouped_chunks(rows, target_population, root, 0) =~= Map::empty());
                assert(descended.union_prefer_right(Map::empty()) =~= descended);
            }
            for i in 0..leftovers.len()
                invariant
                    self.wf(),
                    rows == self@,
                    root == prefix@,
                    is_code_prefix(root),
                    root.len() < CODE_LENGTH,
                    population(rows, root) > target_population,
                    lists_leftovers(rows, target_population, root, digits, 10),
                    leftovers@.len() == digits.len(),
                    forall|i: int|
                        0 <= i < digits.len() ==> (#[trigger] leftovers@[i])@ == child(
                            root,
                            digits[i],
                        ),
                    grouping(rows, target_population, root, bundled_upto(digits, i as int)) == (
                        chunk_idx as nat,
                        chunk_pop as nat,
                    ),
                    chunk_ids(chunk_id_for_prefix@) == descended.union_prefer_right(
                        grouped_chunks(
                            rows,
                            target_population,
                            root,
                            bundled_upto(digits, i as int),
                        ),
                    ),
            {
                let below = leftovers[i].clone();
                let below_pop = self.lookup(below.as_str());
                let ghost d = digits[i as int];
                let ghost from = bundled_upto(digits, i as int);
                proof {
                    assert(below_pop < target_population);
                    lemma_leftovers_gap(rows, target_population, root, digits, i as int);
                    lemma_grouping_skip(rows, target_population, root, from, d);
                    lemma_grouping_bounds(rows, target_population, root, d);
                    lemma_grouping_bounds(rows, target_population, root, d + 1);
                    lemma_grouped_step(rows, target_population, root, from, d);
                }
                if chunk_pop > target_population - below_pop {
                    chunk_idx += 1;
                    chunk_pop = 0;
                }
                chunk_pop += below_pop;
                let chunk_name = String::from_str(prefix).concat("_").concat(
                    digit_str(chunk_idx as u8),
                );
                proof {
                    reveal_strlit("_");
                    assert(chunk_name@ =~= group_id(root, chunk_idx as nat));
                    assert(chunk_idx == group_of(rows, target_population, root, d));
                }
                let ghost earlier = chunk_ids(chunk_id_for_prefix@);
                chunk_id_for_prefix.insert(below, chunk_name);
                proof {
                    assert(chunk_ids(chunk_id_for_prefix@) =~= earlier.insert(
                        child(root, d),
                        group_id(root, chunk_idx as nat),
                    ));
                }
            }
            proof {
                let from = bundled_upto(digits, digits.len() as int);
                lemma_leftovers_gap(rows, target_population, root, digits, digits.len() as int);
                lemma_split_complete(rows, target_population, root, from);
                assert(chunk_ids(chunk_id_for_prefix@) =~= start.union_prefer_right(
                    subtree_chunks(rows, target_population, root),
                ));
            }
        }
    }
}

} // verus!
