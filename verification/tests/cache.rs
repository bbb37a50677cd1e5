use shorts::cache::{cache_key, entry_path, gitignore_update, parse_hex, CacheEntry, ImportCache};
use shorts::symbols::{ModuleSymbolUsage, Symbol};

#[test]
fn test_cache_key_deterministic() {
    let content = b"import foo\nx = 1\n";
    let module = "my.module";
    assert_eq!(cache_key(content, module), cache_key(content, module));
}

#[test]
fn test_cache_key_differs_for_different_content() {
    let module = "my.module";
    assert_ne!(cache_key(b"import foo\n", module), cache_key(b"import bar\n", module));
}

#[test]
fn test_cache_key_differs_for_different_module_class() {
    let content = b"import foo\n";
    assert_ne!(cache_key(content, "my.module"), cache_key(content, "other.module"));
}

#[test]
fn cache_key_combines_the_two_hashes() {
    let content = b"import foo\n";
    let h = xxhash_rust::xxh3::xxh3_64(content);
    let m = xxhash_rust::xxh3::xxh3_64(b"my.module");
    assert_eq!(cache_key(content, "my.module"), h ^ m.rotate_left(32));
}

#[test]
fn entry_path_uses_sixteen_hex_digits_and_a_two_digit_directory() {
    assert_eq!(entry_path("/base", 0xab), "/base/.shorts/cache/00/00000000000000ab.json");
    assert_eq!(entry_path("/base/", 0x1234_5678_9abc_def0), "/base/.shorts/cache/12/123456789abcdef0.json");
}

fn entry(imports: Vec<&str>, hash: u64, with_symbols: bool) -> CacheEntry {
    CacheEntry {
        imports: imports.into_iter().map(String::from).collect(),
        semantic_hash: hash,
        symbol_hashes: if with_symbols { Some(Vec::new()) } else { None },
        symbol_usage: ModuleSymbolUsage::new(),
    }
}

#[test]
fn test_cache_miss_on_empty_dir() {
    let mut cache = ImportCache::new(Some("/tmp/somewhere".to_string()));
    assert!(cache.get(12345, None).is_none());
    assert!(!cache.was_accessed(12345));
}

#[test]
fn get_rejects_old_format_and_disabled_cache() {
    let mut cache = ImportCache::new(Some("/c".to_string()));
    assert!(cache.get(1, Some(entry(vec!["foo"], 42, false))).is_none());
    assert!(!cache.was_accessed(1));
    let got = cache.get(2, Some(entry(vec!["foo", "bar"], 42, true))).expect("current entry");
    assert_eq!(got.imports, vec!["foo", "bar"]);
    assert_eq!(got.semantic_hash, 42);
    assert!(cache.was_accessed(2));
    let mut off = ImportCache::new(None);
    assert!(off.get(2, Some(entry(vec![], 1, true))).is_none());
    assert!(off.entry_path(2).is_none());
    assert!(off.cache_root().is_none());
}

#[test]
fn write_entries_and_prune_marks_and_places_entries() {
    let mut cache = ImportCache::new(Some("/c".to_string()));
    let entries = vec![(0x10u64, entry(vec!["a"], 1, true)), (0x20u64, entry(vec!["b"], 2, true))];
    let paths = cache.write_entries_and_prune(&entries);
    assert_eq!(paths, vec!["/c/.shorts/cache/00/0000000000000010.json", "/c/.shorts/cache/00/0000000000000020.json"]);
    assert!(cache.was_accessed(0x10) && cache.was_accessed(0x20));
    let mut off = ImportCache::new(None);
    assert!(off.write_entries_and_prune(&entries).is_empty());
}

#[test]
fn test_prune_removes_subset_of_unused() {
    let mut cache = ImportCache::new(Some("/c".to_string()));
    let names: Vec<String> = (0..100u64).map(|i| format!("{:016x}.json", i + 1)).collect();
    for i in 0..20u64 {
        let e = entry(vec!["foo"], i, true);
        cache.get(i + 1, Some(e));
    }
    let removed = cache.prune(&names);
    // 80 unaccessed entries: every twentieth goes
    assert_eq!(removed.len(), 4);
    assert_eq!(removed, vec![39, 59, 79, 99]);
}

#[test]
fn prune_ignores_names_that_are_no_entries() {
    let cache = ImportCache::new(Some("/c".to_string()));
    let mut names: Vec<String> = Vec::new();
    for i in 0..19u64 {
        names.push(format!("{:x}.json", i));
    }
    names.push("zz.json".to_string());
    names.push("abc.tmp".to_string());
    names.push(".json".to_string());
    names.push("+ff.json".to_string());
    assert_eq!(cache.prune(&names), vec![22]);
    let off = ImportCache::new(None);
    assert!(off.prune(&names).is_empty());
}

#[test]
fn parse_hex_reads_as_from_str_radix_does() {
    let cases = ["ff", "FF", "+10", "", "+", "-1", "fffffffffffffffff", "ffffffffffffffff", "0x1", "12g"];
    for c in cases {
        let cs: Vec<char> = c.chars().collect();
        assert_eq!(parse_hex(&cs), u64::from_str_radix(c, 16).ok(), "{c}");
    }
}

#[test]
fn gitignore_is_extended_once() {
    assert_eq!(gitignore_update(""), Some(".shorts/\n".to_string()));
    assert_eq!(gitignore_update("target/"), Some("target/\n.shorts/\n".to_string()));
    assert_eq!(gitignore_update("target/\n"), Some("target/\n.shorts/\n".to_string()));
    assert_eq!(gitignore_update("a\n  .shorts/  \nb"), None);
    assert_eq!(gitignore_update("a\r\n.shorts\r\n"), None);
    assert_eq!(gitignore_update("x.shorts/\n"), Some("x.shorts/\n.shorts/\n".to_string()));
}

#[test]
fn changed_symbols_are_those_whose_hash_differs() {
    let f = |n: &str| Symbol::Function(n.to_string());
    let current = vec![(f("a"), 1), (f("b"), 2), (f("new"), 3), (Symbol::ModuleBody, 9)];
    let upstream = vec![(f("a"), 1), (f("b"), 5), (f("gone"), 4), (Symbol::ModuleBody, 9)];
    let deps: Vec<(String, Vec<String>)> = vec![("caller".to_string(), vec!["b".to_string()])];
    let changed = ImportCache::detect_changed_symbols(&current, &upstream, &deps).expect("some change");
    let mut names: Vec<String> = changed.iter().map(|s| s.cache_key()).collect();
    names.sort();
    names.dedup();
    assert_eq!(names, vec!["fn:b", "fn:caller", "fn:gone", "fn:new"]);
    assert!(ImportCache::detect_changed_symbols(&current, &current, &deps).is_none());
}

#[test]
fn test_cache_roundtrip() {
    let mut cache = ImportCache::new(Some("/tmp/roundtrip".to_string()));
    let hash = cache_key(b"import foo\n", "my.module");
    // what is written goes where a read of the same hash looks
    let written = cache.write_entries(&vec![(hash, entry(vec!["foo", "bar"], 42, true))]);
    assert_eq!(written, vec![entry_path("/tmp/roundtrip", hash)]);
    assert_eq!(cache.entry_path(hash), Some(written[0].clone()));
    // and what was stored there comes back
    let retrieved = cache.get(hash, Some(entry(vec!["foo", "bar"], 42, true))).expect("entry should be present");
    assert_eq!(retrieved.imports, vec!["foo", "bar"]);
    assert_eq!(retrieved.semantic_hash, 42);
}

#[test]
fn accessed_entries_survive_pruning() {
    let mut cache = ImportCache::new(Some("/c".to_string()));
    let hashes: Vec<u64> = (0..40u64).map(|i| cache_key(format!("content_{i}").as_bytes(), "mod")).collect();
    let names: Vec<String> = hashes.iter().map(|h| format!("{:016x}.json", h)).collect();
    for h in &hashes[..20] {
        cache.get(*h, Some(entry(vec!["foo"], 0, true)));
    }
    let removed = cache.prune(&names);
    assert_eq!(removed, vec![39]);
    for k in removed {
        assert!(!cache.was_accessed(hashes[k]));
    }
}
