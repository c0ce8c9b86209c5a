//! The population table: how many people live under each leading part of a
//! code.

use vstd::prelude::*;
use vstd::hash_map::StringHashMap;
use vstd::string::StrSliceExecFns;
use crate::digits::{is_code, is_code_str, CODE_LENGTH};
use crate::errors::ChunkError;

verus! {

/// A list of rows, each the characters of a code and the number of people
/// counted for it.
pub type Rows = Seq<(Seq<char>, u64)>;

/// The number of people that one row counts under `prefix`: its population
/// where its code begins with `prefix`, and nobody where it does not.
pub open spec fn counted(row: (Seq<char>, u64), prefix: Seq<char>) -> nat {
    if prefix.is_prefix_of(row.0) {
        row.1 as nat
    } else {
        0
    }
}

/// The number of people that `rows` count under `prefix`: the sum of the
/// populations of the rows whose code begins with `prefix`.
pub open spec fn population(rows: Rows, prefix: Seq<char>) -> nat
    decreases rows.len(),
{
    if rows.len() == 0 {
        0
    } else {
        population(rows.drop_last(), prefix) + counted(rows.last(), prefix)
    }
}

/// Whether the code of every row is a full code.
pub open spec fn valid_rows(rows: Rows) -> bool {
    forall|i: int| 0 <= i < rows.len() ==> is_code(#[trigger] rows[i].0)
}

/// Why no table can be built from `rows`, if anything stands against it. A
/// malformed code is reported before a sum that is too large.
pub open spec fn load_error(rows: Rows) -> Option<ChunkError> {
    if !valid_rows(rows) {
        Some(ChunkError::InvalidRow)
    } else if population(rows, Seq::empty()) > u64::MAX {
        Some(ChunkError::PopulationOverflow)
    } else {
        None
    }
}

/// The count that `totals` holds for `prefix`: zero where it holds none.
pub open spec fn stored(totals: Map<Seq<char>, u64>, prefix: Seq<char>) -> nat {
    if totals.contains_key(prefix) {
        totals[prefix] as nat
    } else {
        0
    }
}

/// One more row adds its population under each leading part of its code.
pub proof fn lemma_population_push(rows: Rows, row: (Seq<char>, u64), prefix: Seq<char>)
    ensures
        population(rows.push(row), prefix) == population(rows, prefix) + counted(row, prefix),
{
    assert(rows.push(row).drop_last() =~= rows);
}

/// A longer leading part counts no more people than a shorter one that it
/// begins with.
pub proof fn lemma_population_narrows(rows: Rows, shorter: Seq<char>, longer: Seq<char>)
    requires
        shorter.is_prefix_of(longer),
    ensures
        population(rows, longer) <= population(rows, shorter),
    decreases rows.len(),
{
    if rows.len() > 0 {
        lemma_population_narrows(rows.drop_last(), shorter, longer);
        let code = rows.last().0;
        if longer.is_prefix_of(code) {
            assert(shorter =~= code.subrange(0, shorter.len() as int));
        }
    }
}

/// The first `n` rows count no more people than all of them.
pub proof fn lemma_population_grows(rows: Rows, n: int, prefix: Seq<char>)
    requires
        0 <= n <= rows.len(),
    ensures
        population(rows.take(n), prefix) <= population(rows, prefix),
    decreases rows.len() - n,
{
    if n < rows.len() {
        lemma_population_grows(rows, n + 1, prefix);
        lemma_population_push(rows.take(n), rows[n], prefix);
        assert(rows.take(n).push(rows[n]) =~= rows.take(n + 1));
    } else {
        assert(rows.take(n) =~= rows);
    }
}

/// Where rows count anyone under a leading part, the code of one of them
/// begins with it.
pub proof fn lemma_population_witness(rows: Rows, prefix: Seq<char>)
    requires
        population(rows, prefix) > 0,
    ensures
        exists|j: int| 0 <= j < rows.len() && prefix.is_prefix_of(#[trigger] rows[j].0),
    decreases rows.len(),
{
    if prefix.is_prefix_of(rows.last().0) {
        assert(prefix.is_prefix_of(rows[rows.len() - 1].0));
    } else {
        let earlier = rows.drop_last();
        lemma_population_witness(earlier, prefix);
        let j = choose|j: int|
            0 <= j < earlier.len() && prefix.is_prefix_of(#[trigger] earlier[j].0);
        assert(earlier[j] == rows[j]);
    }
}

/// The population counted under every leading part of the codes of a list of
/// rows. Its view is that list.
pub struct PrefixPopulation {
    /// The population counted under each leading part that some row's code
    /// begins with.
    totals: StringHashMap<u64>,
    /// The rows that were counted.
    rows: Ghost<Rows>,
}

impl View for PrefixPopulation {
    type V = Rows;

    closed spec fn view(&self) -> Rows {
        self.rows@
    }
}

impl PrefixPopulation {
    /// The table holds, for every leading part, the population that its rows
    /// count under it.
    pub closed spec fn tabulated(&self) -> bool {
        forall|p: Seq<char>| #[trigger] stored(self.totals@, p) == population(self.rows@, p)
    }

    /// The rows of the table are well formed, their sum fits, and the table
    /// holds their populations.
    pub open spec fn wf(&self) -> bool {
        load_error(self@) is None && self.tabulated()
    }

    /// Sums the populations of `rows` under every leading part of their
    /// codes. Fails where a code is malformed or the sum does not fit.
    pub fn new(rows: &Vec<(String, u64)>) -> (r: Result<PrefixPopulation, ChunkError>)
        ensures
            match r {
                Ok(table) => load_error(rows.deep_view()) is None && table.wf() && table@
                    == rows.deep_view(),
                Err(e) => load_error(rows.deep_view()) == Some(e),
            },
    {
        let ghost all = rows.deep_view();
        let mut i: usize = 0;
        while i < rows.len()
            invariant
                i <= rows.len(),
                all == rows.deep_view(),
                forall|j: int| 0 <= j < i ==> is_code(#[trigger] all[j].0),
            decreases rows.len() - i,
        {
            if !is_code_str(rows[i].0.as_str()) {
                assert(all[i as int].0 == rows[i as int].0@);
                return Err(ChunkError::InvalidRow);
            }
            assert(all[i as int].0 == rows[i as int].0@);
            i += 1;
        }
        let mut totals: StringHashMap<u64> = StringHashMap::new();
        let mut total: u64 = 0;
        let mut i: usize = 0;
        while i < rows.len()
            invariant
                i <= rows.len(),
                all == rows.deep_view(),
                valid_rows(all),
                total == population(all.take(i as int), Seq::empty()),
                forall|p: Seq<char>| #[trigger]
                    stored(totals@, p) == population(all.take(i as int), p),
            decreases rows.len() - i,
        {
            let code = rows[i].0.as_str();
            let count = rows[i].1;
            let ghost row = all[i as int];
            let ghost before = all.take(i as int);
            let ghost after = all.take(i as int + 1);
            proof {
                assert(row == (code@, count));
                assert(is_code(row.0));
                assert(before.push(row) =~= after);
                assert forall|p: Seq<char>|
                    population(after, p) == population(before, p) + counted(row, p) by {
                    lemma_population_push(before, row, p);
                }
                assert(Seq::<char>::empty().is_prefix_of(code@));
            }
            match total.checked_add(count) {
                None => {
                    proof {
                        lemma_population_grows(all, i as int + 1, Seq::empty());
                    }
                    return Err(ChunkError::PopulationOverflow);
                },
                Some(sum) => {
                    total = sum;
                },
            }
            let mut len: usize = 0;
            while len <= CODE_LENGTH
                invariant
                    len <= CODE_LENGTH + 1,
                    code@.len() == CODE_LENGTH,
                    row == (code@, count),
                    population(after, Seq::empty()) <= u64::MAX,
                    forall|p: Seq<char>|
                        population(after, p) == population(before, p) + counted(row, p),
                    forall|p: Seq<char>| #[trigger]
                        stored(totals@, p) == population(before, p) + if p.len() < len {
                            counted(row, p)
                        } else {
                            0
                        },
                decreases CODE_LENGTH + 1 - len,
            {
                let key = code.substring_char(0, len);
                let current = match totals.get(key) {
                    Some(held) => *held,
                    None => 0,
                };
                proof {
                    assert(key@.is_prefix_of(code@));
                    assert(current == stored(totals@, key@));
                    lemma_population_narrows(after, Seq::empty(), key@);
                }
                let ghost earlier = totals@;
                totals.insert(key.to_owned(), current + count);
                proof {
                    assert forall|p: Seq<char>| #[trigger]
                        stored(totals@, p) == population(before, p) + if p.len() < len + 1 {
                            counted(row, p)
                        } else {
                            0
                        } by {
                        if p != key@ {
                            assert(stored(totals@, p) == stored(earlier, p));
                            if p.is_prefix_of(code@) && p.len() == len {
                                assert(p =~= key@);
                            }
                        }
                    }
                }
                len += 1;
            }
            i += 1;
        }
        proof {
            assert(all.take(i as int) =~= all);
        }
        Ok(PrefixPopulation { totals, rows: Ghost(all) })
    }

    /// The population counted under `prefix`: zero where no row's code begins
    /// with it.
    pub fn lookup(&self, prefix: &str) -> (r: u64)
        requires
            self.wf(),
            prefix@.len() <= CODE_LENGTH,
        ensures
            r == population(self@, prefix@),
    {
        match self.totals.get(prefix) {
            Some(held) => {
                assert(*held == stored(self.totals@, prefix@));
                *held
            },
            None => {
                assert(0 == stored(self.totals@, prefix@));
                0
            },
        }
    }
}

} // verus!
