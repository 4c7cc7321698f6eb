use make_ultra::config::RuleDef;
use make_ultra::engine::{Engine, Query, Resp};
use make_ultra::hashes::{CachePlan, HashStore};

fn minify_def() -> RuleDef {
    RuleDef {
        from: String::from("(?P<name>.*)\\.js$"),
        to: String::from("$name.min.js"),
        exclude: Some(String::from("\\.min\\.js$")),
        command: String::from("terser $i -o $o"),
    }
}

fn brotli_def() -> RuleDef {
    RuleDef {
        from: String::from("(?P<name>.*)\\.min\\.js$"),
        to: String::from("$name.min.js.br"),
        exclude: None,
        command: String::from("brotli -f $i"),
    }
}

fn lookup_hash(table: &[(&str, Option<u64>)], path: &str) -> Option<u64> {
    for (p, h) in table {
        if *p == path {
            return *h;
        }
    }
    None
}

fn lookup_exists(table: &[(&str, bool)], path: &str) -> bool {
    for (p, e) in table {
        if *p == path {
            return *e;
        }
    }
    false
}

/// Drive one run to the end against a pretended file system, answering
/// every query; commands succeed or fail as `ran_ok` says. Returns every
/// query the engine handed out.
fn drive(
    e: &mut Engine,
    hashes: &[(&str, Option<u64>)],
    exists: &[(&str, bool)],
    ran_ok: bool,
) -> Vec<Query> {
    e.start_run();
    let mut out = Vec::new();
    let mut resp = Resp::Start;
    loop {
        assert!(e.accepts(&resp));
        let q = e.step(resp);
        let stop = matches!(q, Query::Done | Query::BadCommand { .. });
        resp = match &q {
            Query::NeedHash { path } => Resp::Hash(lookup_hash(hashes, path)),
            Query::Run { .. } => Resp::Ran(ran_ok),
            Query::CheckExists { path } => Resp::Exists(lookup_exists(exists, path)),
            _ => Resp::Start,
        };
        out.push(q);
        if stop {
            return out;
        }
    }
}

fn build(defs: Vec<RuleDef>, seeds: &[&str], force: bool, dry: bool, saved: Option<HashStore>) -> Engine {
    let seeds: Vec<String> = seeds.iter().map(|s| String::from(*s)).collect();
    let (e, complete) = Engine::build_with_seeds(&defs, &seeds, force, dry, saved).unwrap();
    assert!(complete);
    e
}

fn printed_lines(qs: &[Query]) -> Vec<String> {
    qs.iter()
        .filter_map(|q| match q {
            Query::Print { line } => Some(line.clone()),
            _ => None,
        })
        .collect()
}

fn run_lines(qs: &[Query]) -> Vec<String> {
    qs.iter()
        .filter_map(|q| match q {
            Query::Run { line, .. } => Some(line.clone()),
            _ => None,
        })
        .collect()
}

#[test]
fn single_rule_graph_shape() {
    let e = build(vec![minify_def()], &["a.js"], false, false, None);
    let nodes = e.node_paths();
    assert_eq!(nodes, vec![String::from("a.js"), String::from("a.min.js")]);
    assert_eq!(e.edge_list(), vec![(0usize, 1usize, 0usize)]);
}

#[test]
fn single_rule_dry_run_prints_command() {
    let mut e = build(vec![minify_def()], &["a.js"], false, true, None);
    let qs = drive(&mut e, &[], &[], true);
    assert_eq!(printed_lines(&qs), vec![String::from("terser a.js -o a.min.js")]);
    assert!(run_lines(&qs).is_empty());
}

#[test]
fn chained_rules_print_in_causal_order() {
    let e = build(
        vec![minify_def(), brotli_def()],
        &["a.js"],
        false,
        true,
        None,
    );
    let nodes = e.node_paths();
    assert_eq!(
        nodes,
        vec![
            String::from("a.js"),
            String::from("a.min.js"),
            String::from("a.min.js.br"),
        ]
    );
    let mut edges = e.edge_list();
    edges.sort();
    assert_eq!(edges, vec![(0usize, 1usize, 0usize), (1usize, 2usize, 1usize)]);
    let mut e2 = build(
        vec![minify_def(), brotli_def()],
        &["a.js"],
        false,
        true,
        None,
    );
    let qs = drive(&mut e2, &[], &[], true);
    assert_eq!(
        printed_lines(&qs),
        vec![
            String::from("terser a.js -o a.min.js"),
            String::from("brotli -f a.min.js"),
        ]
    );
}

#[test]
fn smart_exclusion_keeps_only_specific_rule() {
    let broad = RuleDef {
        from: String::from("(?P<name>.*)\\.js$"),
        to: String::from("$name.min.js"),
        exclude: None,
        command: String::from("terser $i -o $o"),
    };
    let e = build(vec![broad, brotli_def()], &["a.min.js"], false, false, None);
    let nodes = e.node_paths();
    assert_eq!(
        nodes,
        vec![String::from("a.min.js"), String::from("a.min.js.br")]
    );
    assert_eq!(e.edge_list(), vec![(0usize, 1usize, 1usize)]);
}

#[test]
fn unchanged_input_dispatches_nothing() {
    let mut saved = HashStore::empty();
    saved.add(String::from("a.js"), 42);
    let mut e = build(vec![minify_def()], &["a.js"], false, false, Some(saved));
    let qs = drive(
        &mut e,
        &[("a.js", Some(42))],
        &[("a.min.js", true)],
        true,
    );
    assert!(run_lines(&qs).is_empty());
}

#[test]
fn changed_input_dispatches_once_and_records_hash() {
    let mut saved = HashStore::empty();
    saved.add(String::from("a.js"), 42);
    let mut e = build(vec![minify_def()], &["a.js"], false, false, Some(saved));
    let qs = drive(
        &mut e,
        &[("a.js", Some(43))],
        &[("a.min.js", true)],
        true,
    );
    assert_eq!(run_lines(&qs), vec![String::from("terser a.js -o a.min.js")]);
    assert_eq!(e.current_hash("a.js"), Some(43));
}

#[test]
fn failing_command_short_circuits_subtree() {
    let mut saved = HashStore::empty();
    saved.add(String::from("a.js"), 42);
    let mut e = build(
        vec![minify_def(), brotli_def()],
        &["a.js"],
        false,
        false,
        Some(saved),
    );
    let qs = drive(&mut e, &[("a.js", Some(43))], &[], false);
    assert_eq!(run_lines(&qs), vec![String::from("terser a.js -o a.min.js")]);
    assert_eq!(e.current_hash("a.js"), Some(42));
}

#[test]
fn force_dispatches_at_least_as_much() {
    let mut saved = HashStore::empty();
    saved.add(String::from("a.js"), 42);
    let mut clean = build(
        vec![minify_def(), brotli_def()],
        &["a.js"],
        false,
        false,
        Some(saved),
    );
    let unforced = drive(
        &mut clean,
        &[("a.js", Some(42))],
        &[("a.min.js", false)],
        true,
    );
    let mut saved2 = HashStore::empty();
    saved2.add(String::from("a.js"), 42);
    let mut forced = build(
        vec![minify_def(), brotli_def()],
        &["a.js"],
        true,
        false,
        Some(saved2),
    );
    let forced_qs = drive(
        &mut forced,
        &[("a.js", Some(42)), ("a.min.js", Some(7))],
        &[],
        true,
    );
    assert_eq!(run_lines(&unforced).len(), 0);
    assert_eq!(
        run_lines(&forced_qs),
        vec![
            String::from("terser a.js -o a.min.js"),
            String::from("brotli -f a.min.js"),
        ]
    );
    assert!(run_lines(&forced_qs).len() >= run_lines(&unforced).len());
}

#[test]
fn dry_run_prints_what_wet_run_executes() {
    let mut saved = HashStore::empty();
    saved.add(String::from("a.js"), 42);
    let mut dry = build(
        vec![minify_def(), brotli_def()],
        &["a.js"],
        false,
        true,
        Some(saved),
    );
    let dry_qs = drive(&mut dry, &[("a.js", Some(43))], &[], true);
    let mut saved2 = HashStore::empty();
    saved2.add(String::from("a.js"), 42);
    let mut wet = build(
        vec![minify_def(), brotli_def()],
        &["a.js"],
        false,
        false,
        Some(saved2),
    );
    let wet_qs = drive(&mut wet, &[("a.js", Some(43))], &[], true);
    assert!(run_lines(&dry_qs).is_empty());
    assert_eq!(printed_lines(&dry_qs), run_lines(&wet_qs));
    assert!(matches!(dry.cache_plan(), CachePlan::Skip));
}

#[test]
fn wet_run_plans_cache_write() {
    let mut e = build(vec![minify_def()], &["a.js"], false, false, None);
    let _ = drive(&mut e, &[("a.js", Some(9))], &[], true);
    match e.cache_plan() {
        CachePlan::Write(bytes) => {
            let (loaded, _note) = make_ultra::hashes::load_cache(Some(bytes));
            assert_eq!(loaded.unwrap().lookup("a.js"), Some(9));
        }
        _ => panic!("a finished wet run with recorded hashes must write the cache"),
    }
}

#[test]
fn whitespace_only_command_is_reported() {
    let bad = RuleDef {
        from: String::from("(?P<name>.*)\\.js$"),
        to: String::from("$name.min.js"),
        exclude: Some(String::from("\\.min\\.js$")),
        command: String::from("   "),
    };
    let mut e = build(vec![bad], &["a.js"], true, false, None);
    let qs = drive(&mut e, &[], &[], true);
    match qs.last().unwrap() {
        Query::BadCommand { command } => assert_eq!(command, "   "),
        q => panic!("expected a malformed-command report, got {:?}", show(q)),
    }
}

fn show(q: &Query) -> &'static str {
    match q {
        Query::NeedHash { .. } => "NeedHash",
        Query::Run { .. } => "Run",
        Query::Print { .. } => "Print",
        Query::CheckExists { .. } => "CheckExists",
        Query::BadCommand { .. } => "BadCommand",
        Query::Continue => "Continue",
        Query::Done => "Done",
    }
}

#[test]
fn substitution_fills_program_and_args() {
    let def = RuleDef {
        from: String::from("(?P<name>.*)\\.js$"),
        to: String::from("$name.min.js"),
        exclude: Some(String::from("\\.min\\.js$")),
        command: String::from("cp $i $o"),
    };
    let mut e = build(vec![def], &["a.js"], true, false, None);
    let qs = drive(&mut e, &[("a.js", Some(1))], &[], true);
    let mut seen = false;
    for q in &qs {
        if let Query::Run {
            program,
            args,
            line,
        } = q
        {
            assert_eq!(program, "cp");
            assert_eq!(args, &vec![String::from("a.js"), String::from("a.min.js")]);
            assert_eq!(line, "cp a.js a.min.js");
            seen = true;
        }
    }
    assert!(seen);
}

#[test]
fn self_loop_does_not_recurse() {
    let looping = RuleDef {
        from: String::from("\\.keep$"),
        to: String::from(".keep"),
        exclude: None,
        command: String::from("touch $i"),
    };
    let mut e = build(vec![looping], &["a.keep"], true, false, None);
    let nodes = e.node_paths();
    assert_eq!(nodes, vec![String::from("a.keep")]);
    assert_eq!(e.edge_list(), vec![(0usize, 0usize, 0usize)]);
    let qs = drive(&mut e, &[("a.keep", Some(5))], &[], true);
    assert_eq!(run_lines(&qs), vec![String::from("touch a.keep")]);
}

#[test]
fn root_detection_on_a_chain() {
    let e = build(
        vec![minify_def(), brotli_def()],
        &["a.js"],
        false,
        false,
        None,
    );
    assert!(e.is_root_node(0));
    assert!(!e.is_root_node(1));
    assert!(!e.is_root_node(2));
}

#[test]
fn rediscovered_derived_path_adds_nothing() {
    let e = build(
        vec![minify_def(), brotli_def()],
        &["a.js", "a.min.js"],
        false,
        false,
        None,
    );
    assert_eq!(e.node_paths().len(), 3);
    assert_eq!(e.edge_list().len(), 2);
}

#[test]
fn scripted_run_collects_queries() {
    let defs = vec![minify_def()];
    let seeds = vec![String::from("a.js")];
    // One root visit: decide (no saved store, so no hash is asked), print
    // the command under dry-run, visit the fresh child, then finish.
    let script = vec![
        Resp::Start,
        Resp::Start,
        Resp::Start,
        Resp::Start,
        Resp::Start,
        Resp::Start,
        Resp::Start,
    ];
    let (engine, queries, _trace) =
        Engine::run_script(&defs, &seeds, false, true, None, &script).unwrap();
    let lines: Vec<String> = queries
        .iter()
        .filter_map(|q| match q {
            Query::Print { line } => Some(line.clone()),
            _ => None,
        })
        .collect();
    assert_eq!(lines, vec![String::from("terser a.js -o a.min.js")]);
    assert!(queries.iter().all(|q| !matches!(q, Query::Run { .. })));
    assert!(matches!(queries.last(), Some(Query::Done)));
    assert_eq!(engine.node_paths().len(), 2);
}

#[test]
fn scripted_run_refuses_bad_rule() {
    let bad = RuleDef {
        from: String::from("("),
        to: String::from("x"),
        exclude: None,
        command: String::from("c"),
    };
    assert!(Engine::run_script(&vec![bad], &vec![], false, true, None, &vec![]).is_none());
}
