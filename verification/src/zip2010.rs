//! The classifier: which chunk a code belongs to.

use vstd::prelude::*;
use vstd::hash_map::StringHashMap;
use vstd::string::StrSliceExecFns;
use crate::builder::chunk_ids;
use crate::decode::{decode_rows, decoded_rows};
use crate::digits::{is_code, CODE_LENGTH};
use crate::errors::ChunkError;
use crate::partition::{chunk_map, fits};
use crate::population::{
    lemma_population_witness, load_error, population, valid_rows, PrefixPopulation, Rows,
};

verus! {

/// Why no classifier can be built from `rows` for `target`, if anything
/// stands against it: what stands against the table, or else a single code
/// that holds more people than the target.
pub open spec fn build_error(rows: Rows, target: u64) -> Option<ChunkError> {
    if load_error(rows) is Some {
        load_error(rows)
    } else if !fits(rows, target) {
        Some(ChunkError::CodeExceedsTarget)
    } else {
        None
    }
}

/// The chunk of the longest leading part of `code`, of at most `limit`
/// characters, that `chunks` names one for; the empty name where it names
/// none for any of them.
pub open spec fn longest_match(
    chunks: Map<Seq<char>, Seq<char>>,
    code: Seq<char>,
    limit: int,
) -> Seq<char>
    decreases limit + 1,
{
    if limit < 0 {
        Seq::empty()
    } else if chunks.contains_key(code.take(limit)) {
        chunks[code.take(limit)]
    } else {
        longest_match(chunks, code, limit - 1)
    }
}

/// Looks `zip` up in `chunk_id_for_prefix` by its leading parts, from the
/// whole of its first `CODE_LENGTH` characters down to the empty one, and
/// gives the name held for the first that is found, or the empty name where
/// none is. A code of fewer than `CODE_LENGTH` characters is refused.
pub fn longest_prefix_match<'a>(
    chunk_id_for_prefix: &'a StringHashMap<String>,
    zip: &str,
) -> (r: Result<&'a str, ChunkError>)
    ensures
        match r {
            Ok(name) => zip@.len() >= CODE_LENGTH && name@ == longest_match(
                chunk_ids(chunk_id_for_prefix@),
                zip@,
                CODE_LENGTH as int,
            ),
            Err(e) => zip@.len() < CODE_LENGTH && e == ChunkError::InvalidCode,
        },
{
    if zip.unicode_len() < CODE_LENGTH {
        return Err(ChunkError::InvalidCode);
    }
    let ghost chunks = chunk_ids(chunk_id_for_prefix@);
    for i_rev in 0..(CODE_LENGTH + 1)
        invariant
            zip@.len() >= CODE_LENGTH,
            chunks == chunk_ids(chunk_id_for_prefix@),
            longest_match(chunks, zip@, CODE_LENGTH - i_rev) == longest_match(
                chunks,
                zip@,
                CODE_LENGTH as int,
            ),
    {
        let i = CODE_LENGTH - i_rev;
        if let Some(chunk_id) = chunk_id_for_prefix.get(zip.substring_char(0, i)) {
            return Ok(chunk_id.as_str());
        }
    }
    proof {
        reveal_strlit("");
        assert(""@ =~= Seq::<char>::empty());
    }
    Ok("")
}

/// Where every code of the rows is within the target, every full code is:
/// a code that no row has counts nobody.
proof fn lemma_fits_by_rows(rows: Rows, target: u64)
    requires
        valid_rows(rows),
        forall|j: int| 0 <= j < rows.len() ==> population(rows, #[trigger] rows[j].0) <= target,
    ensures
        fits(rows, target),
{
    assert forall|code: Seq<char>|
        is_code(code) && Seq::<char>::empty().is_prefix_of(code) implies #[trigger] population(
        rows,
        code,
    ) <= target by {
        if population(rows, code) > 0 {
            lemma_population_witness(rows, code);
            let j = choose|j: int| 0 <= j < rows.len() && code.is_prefix_of(#[trigger] rows[j].0);
            assert(is_code(rows[j].0));
            assert(code =~= rows[j].0);
        }
    }
}

/// Whether no single code holds more people than `target`, by the codes of
/// the rows that `table` was built from.
fn fits_target(table: &PrefixPopulation, rows: &Vec<(String, u64)>, target: u64) -> (r: bool)
    requires
        table.wf(),
        table@ == rows.deep_view(),
    ensures
        r == fits(table@, target),
{
    let ghost all = rows.deep_view();
    let mut i: usize = 0;
    while i < rows.len()
        invariant
            i <= rows.len(),
            table.wf(),
            table@ == all,
            all == rows.deep_view(),
            forall|j: int| 0 <= j < i ==> population(all, #[trigger] all[j].0) <= target,
        decreases rows.len() - i,
    {
        proof {
            assert(all[i as int].0 == rows[i as int].0@);
            assert(is_code(all[i as int].0));
        }
        if table.lookup(rows[i].0.as_str()) > target {
            proof {
                assert(Seq::<char>::empty().is_prefix_of(all[i as int].0));
            }
            return false;
        }
        i += 1;
    }
    proof {
        lemma_fits_by_rows(all, target);
    }
    true
}

/// Classifies codes into chunks of roughly a target population. Its view is
/// the map from leading parts of codes to the names of their chunks.
pub struct Classifier {
    /// The number of people that a chunk should hold at most.
    target_population: u64,
    /// The chunk of each leading part that has one.
    chunk_id_for_prefix: StringHashMap<String>,
    /// The rows whose population was partitioned.
    rows: Ghost<Rows>,
}

impl View for Classifier {
    type V = Map<Seq<char>, Seq<char>>;

    closed spec fn view(&self) -> Map<Seq<char>, Seq<char>> {
        chunk_ids(self.chunk_id_for_prefix@)
    }
}

impl Classifier {
    /// The target that the classifier was built for.
    pub closed spec fn target(&self) -> u64 {
        self.target_population
    }

    /// The rows that the classifier was built from.
    pub closed spec fn rows(&self) -> Rows {
        self.rows@
    }

    /// The classifier holds the partition of its rows for its target, and
    /// nothing stood against building it.
    pub open spec fn wf(&self) -> bool {
        build_error(self.rows(), self.target()) is None && self@ == chunk_map(
            self.rows(),
            self.target(),
        )
    }

    /// The chunk that the classifier gives a code of at least `CODE_LENGTH`
    /// characters.
    pub open spec fn chunk_of(&self, code: Seq<char>) -> Seq<char> {
        longest_match(self@, code, CODE_LENGTH as int)
    }

    /// Whether `outcome` is what building a classifier from `rows` for
    /// `target` gives: the classifier of the partition of `rows`, or the
    /// reason why there is none.
    pub open spec fn is_built(
        outcome: Result<Classifier, ChunkError>,
        target: u64,
        rows: Rows,
    ) -> bool {
        match outcome {
            Ok(classifier) => classifier.wf() && classifier.target() == target
                && classifier.rows() == rows,
            Err(e) => build_error(rows, target) == Some(e),
        }
    }

    /// Builds the classifier for the population that `rows` give, with
    /// chunks of at most `target_population` people.
    pub fn new(target_population: u64, rows: &Vec<(String, u64)>) -> (r: Result<
        Classifier,
        ChunkError,
    >)
        ensures
            Self::is_built(r, target_population, rows.deep_view()),
    {
        let prefix_population = match PrefixPopulation::new(rows) {
            Ok(table) => table,
            Err(e) => {
                return Err(e);
            },
        };
        if !fits_target(&prefix_population, rows, target_population) {
            return Err(ChunkError::CodeExceedsTarget);
        }
        let mut chunk_id_for_prefix: StringHashMap<String> = StringHashMap::new();
        proof {
            reveal_strlit("");
            assert(""@ =~= Seq::<char>::empty());
        }
        prefix_population.build_chunks_recursive(target_population, "", &mut chunk_id_for_prefix);
        proof {
            assert(chunk_ids(chunk_id_for_prefix@) =~= chunk_map(
                rows.deep_view(),
                target_population,
            ));
        }
        Ok(Classifier { target_population, chunk_id_for_prefix, rows: Ghost(rows.deep_view()) })
    }

    /// Builds the classifier for the population that `text` gives as CSV: a
    /// header line, then one line for each code with its population.
    pub fn from_csv(target_population: u64, text: &str) -> (r: Result<Classifier, ChunkError>)
        ensures
            match decoded_rows(text@) {
                Some(rows) => Self::is_built(r, target_population, rows),
                None => r matches Err(e) && e == ChunkError::Csv,
            },
    {
        match decode_rows(text) {
            Ok(rows) => Classifier::new(target_population, &rows),
            Err(_) => Err(ChunkError::Csv),
        }
    }

    /// The target that the classifier was built for.
    pub fn target_population(&self) -> (r: u64)
        ensures
            r == self.target(),
    {
        self.target_population
    }

    /// The chunk that `zip` belongs to: that of its longest leading part
    /// that has one. A code of fewer than `CODE_LENGTH` characters is
    /// refused; of a longer one the first `CODE_LENGTH` count.
    pub fn chunk_for(&self, zip: &str) -> (r: Result<&str, ChunkError>)
        ensures
            match r {
                Ok(name) => zip@.len() >= CODE_LENGTH && name@ == self.chunk_of(zip@),
                Err(e) => zip@.len() < CODE_LENGTH && e == ChunkError::InvalidCode,
            },
    {
        longest_prefix_match(&self.chunk_id_for_prefix, zip)
    }
}

} // verus!
