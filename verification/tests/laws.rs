use std::collections::HashMap;
use std::collections::HashSet;

use geochunk::errors::ChunkError;
use geochunk::population::PrefixPopulation;
use geochunk::zip2010::{longest_prefix_match, Classifier};
use vstd::hash_map::StringHashMap;

fn census() -> Vec<(String, u64)> {
    let mut rows = Vec::new();
    for code in 0..100000u64 {
        // Uneven populations: most codes are empty, some are large.
        let population = match code % 11 {
            0 => (code * 7919) % 4000,
            1 => (code * 104729) % 900,
            5 => (code * 31) % 50,
            _ => 0,
        };
        if population > 0 {
            rows.push((format!("{:05}", code), population));
        }
    }
    rows
}

fn leading_parts() -> Vec<String> {
    let mut parts = vec![String::new()];
    let mut from = 0;
    for _ in 0..5 {
        let until = parts.len();
        for i in from..until {
            for digit in 0..10 {
                parts.push(format!("{}{}", parts[i], digit));
            }
        }
        from = until;
    }
    parts
}

fn chunk_populations(rows: &Vec<(String, u64)>, target: u64) -> HashMap<String, u64> {
    let table = PrefixPopulation::new(rows).unwrap();
    let mut chunks: StringHashMap<String> = StringHashMap::new();
    table.build_chunks_recursive(target, "", &mut chunks);
    let mut populations: HashMap<String, u64> = HashMap::new();
    for part in leading_parts() {
        if let Some(name) = chunks.get(&part) {
            *populations.entry(name.clone()).or_insert(0) += table.lookup(&part);
        }
    }
    populations
}

fn same_leftovers(table: &PrefixPopulation, parts: &Vec<String>, lower: u64, higher: u64) -> bool {
    for part in parts {
        if part.len() < 5 && table.lookup(part) > higher {
            for digit in 0..10 {
                let population = table.lookup(&format!("{}{}", part, digit));
                if lower <= population && population < higher {
                    return false;
                }
            }
        }
    }
    true
}

fn count_chunks(rows: &Vec<(String, u64)>, target: u64) -> usize {
    let classifier = Classifier::new(target, rows).unwrap();
    let mut names = HashSet::new();
    for code in 0..100000u64 {
        names.insert(classifier.chunk_for(&format!("{:05}", code)).unwrap().to_string());
    }
    names.len()
}

#[test]
fn leading_parts_are_counted() {
    assert_eq!(leading_parts().len(), 111111);
}

#[test]
fn no_chunk_holds_more_than_the_target() {
    let rows = census();
    for target in [4000u64, 5000, 20000, 123456, 1000000] {
        let populations = chunk_populations(&rows, target);
        assert!(!populations.is_empty());
        for (name, population) in &populations {
            assert!(*population <= target, "chunk {} holds {}", name, population);
        }
    }
}

#[test]
fn a_chunk_of_its_own_holds_at_most_the_target() {
    let rows = vec![
        ("10000".to_string(), 60),
        ("10001".to_string(), 40),
        ("20000".to_string(), 100),
        ("30000".to_string(), 99),
        ("30001".to_string(), 2),
        ("40000".to_string(), 100),
        ("40001".to_string(), 1),
    ];
    let table = PrefixPopulation::new(&rows).unwrap();
    let mut chunks: StringHashMap<String> = StringHashMap::new();
    table.build_chunks_recursive(100, "", &mut chunks);
    // 1 and 2 hold the target exactly.
    assert_eq!(chunks.get("1").unwrap(), "1");
    assert_eq!(table.lookup("1"), 100);
    assert_eq!(chunks.get("2").unwrap(), "2");
    assert_eq!(table.lookup("2"), 100);
    assert!(chunks.get("20000").is_none());
    // 3 holds 101 and is split down to its codes, which are leftovers.
    assert!(chunks.get("3").is_none());
    assert!(chunks.get("3000").is_none());
    assert_eq!(chunks.get("30000").unwrap(), "3000_0");
    assert_eq!(chunks.get("30001").unwrap(), "3000_1");
    // 4 is split as well, and its code 40000 holds the target exactly.
    assert_eq!(chunks.get("40000").unwrap(), "40000");
    assert_eq!(table.lookup("40000"), 100);
    assert_eq!(chunks.get("40001").unwrap(), "4000_0");
    for part in leading_parts() {
        if let Some(name) = chunks.get(&part) {
            if *name == part {
                assert!(table.lookup(&part) <= 100);
            }
        }
    }
}

#[test]
fn the_populations_of_a_group_add_up_to_at_most_the_target() {
    let rows = vec![
        ("07701".to_string(), 200000),
        ("07712".to_string(), 100000),
        ("07720".to_string(), 50000),
        ("07730".to_string(), 100000),
        ("07740".to_string(), 100001),
    ];
    let populations = chunk_populations(&rows, 250000);
    assert_eq!(populations["077_0"], 200000);
    assert_eq!(populations["077_1"], 250000);
    assert_eq!(populations["077_2"], 100001);
    assert_eq!(populations["07_0"], 0);
    assert_eq!(populations["0_0"], 0);
    assert_eq!(populations["_0"], 0);
    assert_eq!(populations.len(), 6);
}

#[test]
fn every_code_has_a_chunk() {
    let rows = census();
    let classifier = Classifier::new(5000, &rows).unwrap();
    for code in 0..100000u64 {
        let name = classifier.chunk_for(&format!("{:05}", code)).unwrap();
        assert!(!name.is_empty());
    }
}

#[test]
fn the_same_rows_give_the_same_chunks() {
    let rows = census();
    let first = Classifier::new(5000, &rows).unwrap();
    let second = Classifier::new(5000, &rows).unwrap();
    for code in 0..100000u64 {
        let code = format!("{:05}", code);
        assert_eq!(first.chunk_for(&code).unwrap(), second.chunk_for(&code).unwrap());
    }
}

#[test]
fn a_higher_target_with_the_same_leftovers_gives_no_more_chunks() {
    // Children of 5, 5 and 30 under a root of 40: for the targets 16, 29
    // and 30 the first two are leftovers and the third is not.
    let rows = vec![
        ("00000".to_string(), 5),
        ("10000".to_string(), 5),
        ("20000".to_string(), 15),
        ("20001".to_string(), 15),
    ];
    assert_eq!(count_chunks(&rows, 16), 6);
    assert_eq!(count_chunks(&rows, 29), 6);
    assert_eq!(count_chunks(&rows, 30), 2);
    assert_eq!(count_chunks(&rows, 40), 1);
    // Children of 5, 4, 3 and 100 under a root of 112: all are leftovers for
    // the targets 101 and 111.
    let rows = vec![
        ("00000".to_string(), 5),
        ("10000".to_string(), 4),
        ("20000".to_string(), 3),
        ("30000".to_string(), 100),
    ];
    assert_eq!(count_chunks(&rows, 101), 2);
    assert_eq!(count_chunks(&rows, 111), 2);
    assert_eq!(count_chunks(&rows, 112), 1);
    // On a larger table, for each pair of targets that make the same
    // leftovers.
    let rows = census();
    let table = PrefixPopulation::new(&rows).unwrap();
    let parts = leading_parts();
    let targets = [4000u64, 4500, 6000, 10000, 50000, 100000, 1000000, 20000000];
    let counts: Vec<usize> = targets.iter().map(|target| count_chunks(&rows, *target)).collect();
    let mut pairs = 0;
    for low in 0..targets.len() {
        for high in low..targets.len() {
            if same_leftovers(&table, &parts, targets[low], targets[high]) {
                assert!(counts[high] <= counts[low]);
                pairs += 1;
            }
        }
    }
    assert!(pairs > targets.len());
}

#[test]
fn a_child_that_turns_into_a_leftover_can_add_a_chunk() {
    let rows = vec![
        ("00000".to_string(), 5),
        ("10000".to_string(), 10),
        ("20000".to_string(), 5),
    ];
    // For 10 the child 1 is a chunk of its own, and the others make one
    // group. For 11 it is a leftover between them, and nothing fits with it.
    assert_eq!(count_chunks(&rows, 10), 2);
    assert_eq!(count_chunks(&rows, 11), 3);
}

#[test]
fn the_longest_leading_part_wins() {
    let mut chunks: StringHashMap<String> = StringHashMap::new();
    chunks.insert("12".to_string(), "short".to_string());
    chunks.insert("12345".to_string(), "long".to_string());
    assert_eq!(longest_prefix_match(&chunks, "12345").unwrap(), "long");
    assert_eq!(longest_prefix_match(&chunks, "12399").unwrap(), "short");
    assert_eq!(longest_prefix_match(&chunks, "12345678").unwrap(), "long");
    assert_eq!(longest_prefix_match(&chunks, "13345").unwrap(), "");
    chunks.insert("".to_string(), "all".to_string());
    assert_eq!(longest_prefix_match(&chunks, "13345").unwrap(), "all");
    assert_eq!(longest_prefix_match(&chunks, "12000").unwrap(), "short");
    assert!(matches!(longest_prefix_match(&chunks, "1234"), Err(ChunkError::InvalidCode)));
}

#[test]
fn leading_parts_beyond_the_code_length_are_not_looked_at() {
    let mut chunks: StringHashMap<String> = StringHashMap::new();
    chunks.insert("123456".to_string(), "too long".to_string());
    assert_eq!(longest_prefix_match(&chunks, "123456").unwrap(), "");
}
