use bend_bundler::bundle::{bundle, BundleError};
use bend_bundler::config::{
    classify_dep, preflight, resolve_step, Config, ConfigError, PipelineError, ResolveAction,
    Source,
};
use bend_bundler::sort::{DependencyGraph, GraphError};
use bend_bundler::walker::{is_bend, is_reserved, DirWalker};

fn ignore_list() -> Vec<Vec<u8>> {
    vec![b"out".to_vec(), b"main".to_vec(), b"build".to_vec()]
}

fn walker_with(mods: &[(&str, &str)]) -> DirWalker {
    let mut w = DirWalker::new();
    let ignore = ignore_list();
    for (stem, text) in mods {
        let included = w.record_file(
            &stem.as_bytes().to_vec(),
            &b"bend".to_vec(),
            text.as_bytes().to_vec(),
            &ignore,
        );
        assert!(included);
    }
    w
}

#[test]
fn collects_only_compilable_units() {
    let mut w = DirWalker::new();
    let ignore = ignore_list();
    assert!(!w.record_file(
        &b"notes".to_vec(),
        &b"txt".to_vec(),
        b"x".to_vec(),
        &ignore
    ));
    assert!(!w.record_file(
        &b"main".to_vec(),
        &b"bend".to_vec(),
        b"x".to_vec(),
        &ignore
    ));
    assert_eq!(w.size, 0);
    assert_eq!(w.modules.len(), 0);
    assert!(w.record_file(&b"a".to_vec(), &b"bend".to_vec(), b"x".to_vec(), &ignore));
    assert_eq!(w.size, 1);
    assert_eq!(w.modules.len(), 1);
}

#[test]
fn canonicalizes_stems() {
    let mut w = DirWalker::new();
    let ignore = ignore_list();
    assert!(w.record_file(
        &b"  MyMod ".to_vec(),
        &b"bend".to_vec(),
        b"x".to_vec(),
        &ignore
    ));
    assert_eq!(w.modules[0].0, b"mymod".to_vec());
}

#[test]
fn reserved_stems_match_canonically() {
    let ignore = ignore_list();
    assert!(is_reserved(&b" MAIN ".to_vec(), &ignore));
    assert!(!is_reserved(&b"other".to_vec(), &ignore));
    assert!(is_bend(&b"bend".to_vec()));
    assert!(!is_bend(&b"rs".to_vec()));
}

#[test]
fn overwrite_keeps_last_collected() {
    // two locations contribute the same canonical name; the one collected
    // last wins, and the running count still counts both files
    let mut w = DirWalker::new();
    let ignore = ignore_list();
    assert!(w.record_file(
        &b"a".to_vec(),
        &b"bend".to_vec(),
        b"from first location".to_vec(),
        &ignore
    ));
    assert!(w.record_file(
        &b"A".to_vec(),
        &b"bend".to_vec(),
        b"from second location".to_vec(),
        &ignore
    ));
    assert_eq!(w.modules.len(), 1);
    assert_eq!(w.size, 2);
    assert_eq!(w.modules[0].1, b"from second location".to_vec());
}

#[test]
fn acyclic_scenario_counts_order_and_artifact() {
    let w = walker_with(&[("a", "#use b\nfoo"), ("b", "#use c\nbar"), ("c", "baz")]);
    let g = DependencyGraph::with_modules(&w, &ignore_list()).unwrap();
    assert_eq!(g.pending_of(&b"a".to_vec()), Some(0));
    assert_eq!(g.pending_of(&b"b".to_vec()), Some(1));
    assert_eq!(g.pending_of(&b"c".to_vec()), Some(1));
    assert_eq!(g.pending_of(&b"d".to_vec()), None);
    let order = g.topological_sort().unwrap();
    assert_eq!(
        order,
        vec![b"c".to_vec(), b"b".to_vec(), b"a".to_vec()]
    );
    let out = bundle(&order, &w.modules).unwrap();
    assert_eq!(out, b"baz\nbar\nfoo".to_vec());
}

#[test]
fn repeated_runs_give_identical_results() {
    let w = walker_with(&[("a", "#use b\nfoo"), ("b", "#use c\nbar"), ("c", "baz")]);
    let ignore = ignore_list();
    let o1 = DependencyGraph::with_modules(&w, &ignore)
        .unwrap()
        .topological_sort()
        .unwrap();
    let o2 = DependencyGraph::with_modules(&w, &ignore)
        .unwrap()
        .topological_sort()
        .unwrap();
    assert_eq!(o1, o2);
    assert_eq!(bundle(&o1, &w.modules), bundle(&o2, &w.modules));
}

#[test]
fn cycle_is_reported_not_dropped() {
    let w = walker_with(&[("a", "#use b"), ("b", "#use a")]);
    let g = DependencyGraph::with_modules(&w, &ignore_list()).unwrap();
    assert_eq!(g.pending_of(&b"a".to_vec()), Some(1));
    assert_eq!(g.pending_of(&b"b".to_vec()), Some(1));
    let err = g.topological_sort().unwrap_err();
    let mut stuck = err.stuck.clone();
    stuck.sort();
    assert_eq!(stuck, vec![b"a".to_vec(), b"b".to_vec()]);
}

#[test]
fn diamond_orders_dependencies_first() {
    let w = walker_with(&[
        ("top", "#use left\n#use right\nt"),
        ("left", "#use base\nl"),
        ("right", "#use base\nr"),
        ("base", "b"),
    ]);
    let order = DependencyGraph::with_modules(&w, &ignore_list())
        .unwrap()
        .topological_sort()
        .unwrap();
    let pos = |n: &[u8]| order.iter().position(|x| x == n).unwrap();
    assert!(pos(b"base") < pos(b"left"));
    assert!(pos(b"base") < pos(b"right"));
    assert!(pos(b"left") < pos(b"top"));
    assert!(pos(b"right") < pos(b"top"));
    assert_eq!(order.len(), 4);
}

#[test]
fn malformed_directive_names_module_and_line() {
    let w = walker_with(&[("a", "ok\n#use")]);
    let err = DependencyGraph::with_modules(&w, &ignore_list()).unwrap_err();
    assert_eq!(
        err,
        GraphError::MalformedDirective {
            module: b"a".to_vec(),
            line: 1
        }
    );
}

#[test]
fn directive_targets_are_canonicalized_and_deduplicated() {
    let w = walker_with(&[("a", "#use  B \n#use b\nx"), ("b", "y")]);
    let g = DependencyGraph::with_modules(&w, &ignore_list()).unwrap();
    assert_eq!(g.pending_of(&b"b".to_vec()), Some(1));
    let order = g.topological_sort().unwrap();
    assert_eq!(order, vec![b"b".to_vec(), b"a".to_vec()]);
}

#[test]
fn dangling_reference_fails_at_bundling() {
    let w = walker_with(&[("a", "#use missing\nx")]);
    let g = DependencyGraph::with_modules(&w, &ignore_list()).unwrap();
    let order = g.topological_sort().unwrap();
    assert!(order.contains(&b"missing".to_vec()));
    let err = bundle(&order, &w.modules).unwrap_err();
    assert_eq!(
        err,
        BundleError::MissingModule {
            name: b"missing".to_vec()
        }
    );
}

#[test]
fn comment_stripping_keeps_exactly_the_other_lines() {
    // three comment lines (the directive line included), two other lines
    let w = walker_with(&[("solo", "# note\n#use dep\n#x\nfoo\nbar\n"), ("dep", "#only\n")]);
    let order = vec![b"solo".to_vec()];
    let out = bundle(&order, &w.modules).unwrap();
    assert_eq!(out, b"foo\nbar".to_vec());
    // a module of comments alone contributes no lines
    let order2 = vec![b"dep".to_vec(), b"solo".to_vec()];
    let out2 = bundle(&order2, &w.modules).unwrap();
    assert_eq!(out2, b"foo\nbar".to_vec());
}

#[test]
fn carriage_returns_are_stripped_from_kept_lines() {
    let w = walker_with(&[("a", "foo\r\nbar\r\n")]);
    let out = bundle(&vec![b"a".to_vec()], &w.modules).unwrap();
    assert_eq!(out, b"foo\nbar".to_vec());
}

#[test]
fn preflight_requires_manifest_and_entry() {
    assert_eq!(preflight(true, true), Ok(()));
    assert_eq!(preflight(false, true), Err(PipelineError::MissingManifest));
    assert_eq!(preflight(false, false), Err(PipelineError::MissingManifest));
    assert_eq!(
        preflight(true, false),
        Err(PipelineError::MissingEntryModule)
    );
}

#[test]
fn classify_dep_reads_git_before_path() {
    let key = b":pkg".to_vec();
    let git = b"\"https://example.com/repo\"".to_vec();
    let path = b"\"./vendor\"".to_vec();
    let (name, source) = classify_dep(&key, Some(&git), Some(&path)).unwrap();
    assert_eq!(name, b"pkg".to_vec());
    assert_eq!(source, Source::GitHub(b"https://example.com/repo".to_vec()));
}

#[test]
fn classify_dep_normalizes_urls() {
    // the URL check is real: scheme and host are case-normalized
    let key = b":pkg".to_vec();
    let git = b"\"HTTPS://Example.COM/repo\"".to_vec();
    let (_, source) = classify_dep(&key, Some(&git), None).unwrap();
    assert_eq!(source, Source::GitHub(b"https://example.com/repo".to_vec()));
}

#[test]
fn classify_dep_rejects_invalid_urls() {
    let key = b":pkg".to_vec();
    let git = b"\"not a url\"".to_vec();
    let err = classify_dep(&key, Some(&git), None).unwrap_err();
    match err {
        ConfigError::InvalidUrl { name, .. } => assert_eq!(name, b"pkg".to_vec()),
        other => panic!("unexpected error: {:?}", other),
    }
}

#[test]
fn classify_dep_reads_paths() {
    let key = b":local".to_vec();
    let path = b"\"./vendor/lib\"".to_vec();
    let (name, source) = classify_dep(&key, None, Some(&path)).unwrap();
    assert_eq!(name, b"local".to_vec());
    assert_eq!(source, Source::Local(b"./vendor/lib".to_vec()));
}

#[test]
fn classify_dep_requires_a_source_field() {
    let key = b":bare".to_vec();
    let err = classify_dep(&key, None, None).unwrap_err();
    assert_eq!(
        err,
        ConfigError::MissingSourceField {
            name: b"bare".to_vec()
        }
    );
}

#[test]
fn config_keeps_last_declaration_of_a_name() {
    let mut c = Config::new();
    c.insert_dep(b"dep".to_vec(), Source::Local(b"./one".to_vec()));
    c.insert_dep(b"dep".to_vec(), Source::Local(b"./two".to_vec()));
    assert_eq!(c.deps.len(), 1);
    assert_eq!(c.deps[0].1, Source::Local(b"./two".to_vec()));
}

#[test]
fn resolver_skips_fetch_for_populated_cache() {
    let name = b"dep".to_vec();
    let source = Source::GitHub(b"https://example.com/repo".to_vec());
    let build_dir = b".build".to_vec();
    let action = resolve_step(&name, &source, &build_dir, true, true);
    assert_eq!(
        action,
        ResolveAction::Collect {
            dir: b".build/dep".to_vec()
        }
    );
}

#[test]
fn resolver_fetches_when_cache_is_cold() {
    let name = b"dep".to_vec();
    let url = b"https://example.com/repo".to_vec();
    let source = Source::GitHub(url.clone());
    let build_dir = b".build".to_vec();
    for (present, nonempty) in [(false, false), (true, false), (false, true)] {
        let action = resolve_step(&name, &source, &build_dir, present, nonempty);
        assert_eq!(
            action,
            ResolveAction::FetchThenCollect {
                url: url.clone(),
                dir: b".build/dep".to_vec()
            }
        );
    }
}

#[test]
fn resolver_uses_local_paths_as_given() {
    let action = resolve_step(
        &b"dep".to_vec(),
        &Source::Local(b"../lib".to_vec()),
        &b".build".to_vec(),
        false,
        false,
    );
    assert_eq!(
        action,
        ResolveAction::Collect {
            dir: b"../lib".to_vec()
        }
    );
}

#[test]
fn ignored_modules_are_no_graph_nodes() {
    // a module named like a reserved name can still enter the table under a
    // different stem set, but a reserved key in the table never becomes a node
    let mut w = DirWalker::new();
    let empty_ignore: Vec<Vec<u8>> = vec![];
    assert!(w.record_file(
        &b"main".to_vec(),
        &b"bend".to_vec(),
        b"#use a\nm".to_vec(),
        &empty_ignore
    ));
    assert!(w.record_file(
        &b"a".to_vec(),
        &b"bend".to_vec(),
        b"x".to_vec(),
        &empty_ignore
    ));
    let g = DependencyGraph::with_modules(&w, &ignore_list()).unwrap();
    // "main" is reserved: it is no node, so "a" has no recorded user
    assert_eq!(g.pending_of(&b"main".to_vec()), None);
    assert_eq!(g.pending_of(&b"a".to_vec()), Some(0));
}

#[test]
fn empty_module_contributes_no_lines() {
    let w = walker_with(&[("a", ""), ("b", "text")]);
    let order = vec![b"a".to_vec(), b"b".to_vec()];
    assert_eq!(bundle(&order, &w.modules).unwrap(), b"text".to_vec());
    let order2 = vec![b"b".to_vec(), b"a".to_vec()];
    assert_eq!(bundle(&order2, &w.modules).unwrap(), b"text".to_vec());
}

#[test]
fn directive_with_blank_argument_is_not_malformed() {
    // the separator is present, so the declared name is the empty string,
    // which no module bears: bundling reports it missing
    let w = walker_with(&[("a", "#use \nx")]);
    let g = DependencyGraph::with_modules(&w, &ignore_list()).unwrap();
    assert_eq!(g.pending_of(&b"".to_vec()), Some(1));
    let order = g.topological_sort().unwrap();
    let err = bundle(&order, &w.modules).unwrap_err();
    assert_eq!(err, BundleError::MissingModule { name: b"".to_vec() });
}
