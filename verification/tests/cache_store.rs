use symdex::cache::{Cache, Mtime, Record};
use symdex::codec::{load_cache, serialize_cache};
use symdex::fzf::Entry;
use symdex::symbol::Kind;
use symdex::text::Loc;
use symdex::worker::run_jobs;

fn entry(path: &str, line: u64, column: u64, text: &str, kind: Kind) -> Entry<String, String> {
    Entry::new(path.to_string(), Loc::new(line, column), text.to_string(), kind)
}

fn entries_equal(a: &Entry<String, String>, b: &Entry<String, String>) -> bool {
    a.path == b.path && a.loc == b.loc && a.text == b.text && a.kind == b.kind
}

fn records_equal(a: &Record, b: &Record) -> bool {
    a.mtime == b.mtime
        && a.entries.len() == b.entries.len()
        && a.entries.iter().zip(b.entries.iter()).all(|(x, y)| entries_equal(x, y))
}

#[test]
fn lookup_and_freshness_follow_insert() {
    let mut cache = Cache::new();
    assert!(cache.lookup("a.rs").is_none());
    assert!(!cache.is_fresh("a.rs", Mtime { secs: 1, nanos: 0 }));
    let rec = Record {
        mtime: Mtime { secs: 1, nanos: 0 },
        entries: vec![entry("a.rs", 1, 1, "alpha", Kind::Function)],
    };
    cache.insert_or_replace("a.rs".to_string(), rec);
    assert!(cache.is_fresh("a.rs", Mtime { secs: 1, nanos: 0 }));
    assert!(!cache.is_fresh("a.rs", Mtime { secs: 2, nanos: 0 }));
    assert!(!cache.is_fresh("a.rs", Mtime { secs: 1, nanos: 5 }));
    let found = cache.lookup("a.rs").unwrap();
    assert_eq!(found.entries.len(), 1);
    assert_eq!(found.entries[0].text, "alpha");
}

#[test]
fn fresh_file_keeps_its_entries_and_is_not_reparsed() {
    // Indexing an unchanged file twice: the second run sees a fresh record
    // and must reuse it verbatim, so the (different) second parse result is
    // never consulted.
    let m = Mtime { secs: 10, nanos: 3 };
    let mut cache = Cache::new();
    run_jobs(
        &mut cache,
        vec![("a.rs".to_string(), m, vec![entry("a.rs", 1, 4, "alpha", Kind::Function)])],
    );
    run_jobs(
        &mut cache,
        vec![("a.rs".to_string(), m, vec![entry("a.rs", 9, 9, "ghost", Kind::Method)])],
    );
    let rec = cache.lookup("a.rs").unwrap();
    assert_eq!(rec.entries.len(), 1);
    assert_eq!(rec.entries[0].text, "alpha");
    assert_eq!(rec.mtime, m);
}

#[test]
fn changed_mtime_replaces_entries_whole() {
    let mut cache = Cache::new();
    run_jobs(
        &mut cache,
        vec![(
            "a.rs".to_string(),
            Mtime { secs: 1, nanos: 0 },
            vec![
                entry("a.rs", 1, 1, "old_one", Kind::Function),
                entry("a.rs", 2, 1, "old_two", Kind::Function),
            ],
        )],
    );
    run_jobs(
        &mut cache,
        vec![(
            "a.rs".to_string(),
            Mtime { secs: 2, nanos: 0 },
            vec![entry("a.rs", 5, 1, "fresh", Kind::Class)],
        )],
    );
    let rec = cache.lookup("a.rs").unwrap();
    assert_eq!(rec.mtime, Mtime { secs: 2, nanos: 0 });
    assert_eq!(rec.entries.len(), 1);
    assert_eq!(rec.entries[0].text, "fresh");
}

#[test]
fn total_entries_do_not_depend_on_claim_order() {
    // The same three files split differently among workers: whatever order
    // the paths are claimed in, the cache ends up with the same records and
    // the same total entry count.
    let jobs = |order: &[usize]| {
        let all = [
            ("a.rs", Mtime { secs: 1, nanos: 0 }, vec![entry("a.rs", 1, 1, "a1", Kind::Function)]),
            (
                "b.rs",
                Mtime { secs: 2, nanos: 0 },
                vec![
                    entry("b.rs", 1, 1, "b1", Kind::Function),
                    entry("b.rs", 2, 1, "b2", Kind::Class),
                ],
            ),
            ("c.rs", Mtime { secs: 3, nanos: 0 }, vec![entry("c.rs", 7, 2, "c1", Kind::Module)]),
        ];
        order
            .iter()
            .map(|&i| (all[i].0.to_string(), all[i].1, all[i].2.clone()))
            .collect::<Vec<_>>()
    };
    let mut one_worker = Cache::new();
    run_jobs(&mut one_worker, jobs(&[0, 1, 2]));
    let mut racing_workers = Cache::new();
    run_jobs(&mut racing_workers, jobs(&[2, 0, 1]));
    assert_eq!(one_worker.len(), 3);
    assert_eq!(racing_workers.len(), 3);
    for path in ["a.rs", "b.rs", "c.rs"] {
        let x = one_worker.lookup(path).unwrap();
        let y = racing_workers.lookup(path).unwrap();
        assert!(records_equal(x, y));
    }
    let count = |c: &Cache| c.records().iter().map(|(_, r)| r.entries.len()).sum::<usize>();
    assert_eq!(count(&one_worker), count(&racing_workers));
    assert_eq!(count(&one_worker), 4);
}

#[test]
fn serialize_then_load_reproduces_every_record() {
    // Texts and paths carry the output field separator, newlines, tabs and
    // backslashes: the store must bring them back unchanged.
    let mut cache = Cache::new();
    cache.insert_or_replace(
        "src/we ird\u{2008}name.rs".to_string(),
        Record {
            mtime: Mtime { secs: 123456789, nanos: 987654321 },
            entries: vec![
                entry("src/we ird\u{2008}name.rs", 1, 1, "line\nbreak\ttab\\slash", Kind::Class),
                entry("src/we ird\u{2008}name.rs", 40, 2, "\u{2008}", Kind::Constant),
            ],
        },
    );
    cache.insert_or_replace(
        "empty.rs".to_string(),
        Record { mtime: Mtime { secs: 0, nanos: 0 }, entries: vec![] },
    );
    let text = serialize_cache(&cache);
    let loaded = load_cache(text.as_str());
    assert_eq!(loaded.len(), cache.len());
    for (path, rec) in cache.records() {
        let got = loaded.lookup(path.as_str()).unwrap();
        assert!(records_equal(got, rec));
    }
}

#[test]
fn malformed_store_loads_as_empty_cache() {
    assert_eq!(load_cache("").len(), 0);
    assert_eq!(load_cache("not a store").len(), 0);
    assert_eq!(load_cache("00000000000000000003").len(), 0);
}

#[test]
fn empty_cache_round_trips() {
    let cache = Cache::new();
    let text = serialize_cache(&cache);
    assert_eq!(load_cache(text.as_str()).len(), 0);
}
