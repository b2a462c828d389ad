use mp_research::cli::{
    after_poll, all_flags, backtest_config_text, backtest_settings, bucket_at, check_request,
    date_range, effective_strategy, flag, flags, has_flag, need, paper_config_text,
    parse_buckets, parse_rules, plateau_points, point_texts, query_interval, required_universe,
    resample_settings, rule_at, run_target, seeded, sim_command, tail_settings, walk_settings, Fractions,
    RuleOp, SimCommand,
};
use mp_research::event::{SymbolId, SymbolMeta, Venue};
use mp_research::number::Real;
use mp_research::text::split_text;

fn args(v: &[&str]) -> Vec<String> {
    v.iter().map(|s| s.to_string()).collect()
}

fn r(x: f64) -> Real {
    Real { bits: x.to_bits() }
}

fn number(s: &str) -> Option<Real> {
    s.parse::<f64>().ok().map(r)
}

const NONE: Fractions = Fractions { coverage: None, carry_entry: None, carry_exit: None };

#[test]
fn a_flag_is_what_stands_behind_its_name() {
    let a = args(&["x", "--log", "a.log", "--log", "b.log", "--tail"]);
    assert_eq!(flag(&a, "--log").as_deref(), Some("a.log"));
    assert_eq!(flag(&a, "--tail"), None);
    assert_eq!(flag(&a, "--none"), None);
    assert!(has_flag(&a, "--tail"));
    assert!(!has_flag(&a, "--tai"));
    assert_eq!(need(&a, "--seed"), Err("missing --seed".into()));
    assert_eq!(all_flags(&a, "--log"), args(&["a.log", "b.log"]));
    assert_eq!(flags(&a, "--log"), args(&["a.log", "b.log"]));
    let twice = args(&["--log", "--log", "c"]);
    assert_eq!(all_flags(&twice, "--log"), args(&["--log"]));
    assert_eq!(flags(&twice, "--log"), args(&["--log", "c"]));
}

#[test]
fn dates_are_one_day_or_a_range() {
    assert_eq!(date_range(&args(&["--date", "2026-02-28"])), Ok(args(&["2026-02-28"])));
    assert_eq!(
        date_range(&args(&["--start-date", "2024-02-28", "--end-date", "2024-03-01"])),
        Ok(args(&["2024-02-28", "2024-02-29", "2024-03-01"]))
    );
    let err = |v: &[&str]| date_range(&args(v)).unwrap_err();
    assert_eq!(err(&[]), "--date (single) or --start-date/--end-date (range) required");
    assert_eq!(err(&["--start-date", "2026-01-01"]), "--start-date needs --end-date");
    assert_eq!(err(&["--end-date", "2026-01-01"]), "--end-date needs --start-date");
    assert_eq!(
        err(&["--date", "2026-01-01", "--end-date", "2026-01-02"]),
        "use either --date OR --start-date/--end-date, not both"
    );
    assert_eq!(err(&["--date", "2026-1-1"]), "bad start-date '2026-1-1' (YYYY-MM-DD)");
    assert_eq!(err(&["--date", "+026-01-01"]), "bad start-date '+026-01-01' (YYYY-MM-DD)");
    assert_eq!(err(&["--date", "12026-01-01"]), "bad start-date '12026-01-01' (YYYY-MM-DD)");
    assert_eq!(err(&["--date", "2026-02-30"]), "bad start-date '2026-02-30' (YYYY-MM-DD)");
    assert_eq!(
        err(&["--start-date", "2026-01-01", "--end-date", "x"]),
        "bad end-date 'x' (YYYY-MM-DD)"
    );
    assert_eq!(
        err(&["--start-date", "2026-01-02", "--end-date", "2026-01-01"]),
        "start-date 2026-01-02 is after end-date 2026-01-01"
    );
}

#[test]
fn commands_are_known_by_name() {
    assert_eq!(sim_command(&args(&["wf"])), Ok(SimCommand::WalkForward));
    assert_eq!(sim_command(&args(&["paper-tail", "x"])), Ok(SimCommand::PaperTail));
    assert_eq!(sim_command(&args(&["fly"])), Err("unknown command: fly".into()));
    assert_eq!(
        sim_command(&args(&[])),
        Err("usage: sim backtest|wf|plateau|mc|replay-live|paper|paper-tail …".into())
    );
}

#[test]
fn a_backtest_reads_its_settings() {
    let a = args(&["--strategy", "null", "--seed", "7", "--coverage", "0.9", "--bar-tf-ns", "5"]);
    let s = seeded(&a).unwrap();
    assert_eq!((s.strategy.as_str(), s.seed), ("null", 7));
    let b = backtest_settings(&a, Fractions { coverage: number("0.9"), ..NONE }).unwrap();
    assert_eq!((b.coverage, b.bar_tf_ns, b.carry_entry), (r(0.9), 5, None));
    assert_eq!(backtest_settings(&a, NONE), Err("bad --coverage".into()));
    let plain = backtest_settings(&args(&[]), NONE).unwrap();
    assert_eq!((plain.coverage, plain.bar_tf_ns), (r(1.0), 1_000_000));
    assert!(matches!(seeded(&args(&["--strategy", "s"])), Err(e) if e == "missing --seed"));
    assert!(matches!(
        seeded(&args(&["--strategy", "s", "--seed", "-1"])),
        Err(e) if e == "bad --seed"
    ));
    assert_eq!(
        backtest_config_text(&s, "0.9", "None", "Some(0.1)"),
        "strategy=null;seed=7;cfg=default;coverage=0.9;carry_entry=None;carry_exit=Some(0.1)"
    );
}

#[test]
fn a_run_is_recorded_where_it_says() {
    let t = run_target(&args(&["--run-id", "r", "--runs-dir", "d"])).unwrap();
    assert_eq!((t.run_id.as_str(), t.runs_dir.as_str(), t.git_sha.as_str()), ("r", "d", "unknown"));
    assert_eq!(run_target(&args(&["--run-id", "r"])).unwrap_err(), "missing --runs-dir");
}

#[test]
fn a_tripped_latch_runs_no_strategy() {
    let a = args(&["--zero-intents", "true"]);
    assert_eq!(effective_strategy(&a, "carry-v1"), "null");
    let last = args(&["--strategy", "coinflip", "--runs-dir", "d", "--zero-intents"]);
    assert_eq!(effective_strategy(&last, "coinflip"), "null");
    assert_eq!(effective_strategy(&args(&[]), "carry-v1"), "carry-v1");
    let s = seeded(&args(&["--strategy", "carry-v1", "--seed", "42"])).unwrap();
    assert_eq!(
        paper_config_text(&s, 10_000, true),
        "paper;strategy=carry-v1;seed=42;chunk=10000;zero_intents=true"
    );
    assert_eq!(paper_config_text(&s, 5, false), "paper;strategy=carry-v1;seed=42;chunk=5");
}

#[test]
fn a_tail_ends_after_idle_polls() {
    let t = tail_settings(&args(&["--max-idle-polls", "2"])).unwrap();
    assert_eq!((t.poll_ms, t.max_idle_polls, t.max_polls), (5_000, 2, u32::MAX));
    assert_eq!(tail_settings(&args(&["--max-polls", "4294967296"])), Err("bad --max-polls".into()));
    let (idle, stop) = after_poll(0, false, 2);
    assert_eq!((idle, stop), (1, false));
    assert_eq!(after_poll(idle, false, 2), (2, true));
    assert_eq!(after_poll(idle, true, 2), (0, false));
}

#[test]
fn a_walk_forward_needs_its_lengths() {
    let w = walk_settings(&args(&["--train-ns", "9", "--test-ns", "3", "--step-ns", "2"])).unwrap();
    assert_eq!((w.params.train_ns, w.params.embargo_ns, w.min_trades), (9, 0, 10));
    assert_eq!(walk_settings(&args(&["--train-ns", "9"])), Err("missing --test-ns".into()));
    let m = resample_settings(&args(&["--resamples", "200"])).unwrap();
    assert_eq!((m.resamples, m.block_ns), (200, 86_400_000_000_000));
}

#[test]
fn plateau_points_are_pairs_of_fractions() {
    let read = |v: &[&str]| {
        let a = args(v);
        let denoted = point_texts(&a).iter().map(|(d, e)| (number(d), number(e))).collect();
        plateau_points(&a, &denoted)
    };
    assert_eq!(
        read(&["--base", "0.5", "--point", "0.1:0.4", "--point", "-0.2:-1"]),
        Ok(vec![(r(0.1), r(0.4)), (r(-0.2), r(-1.0))])
    );
    assert_eq!(read(&["--point"]), Err("--point needs <delta:expectancy>".into()));
    assert_eq!(read(&["--point", "5"]), Err("point must be <delta:expectancy>".into()));
    assert_eq!(read(&["--point", "x:1"]), Err("bad delta".into()));
    assert_eq!(read(&["--point", "1:x", "--point", "5"]), Err("bad expectancy".into()));
}

#[test]
fn the_check_names_its_day_and_recordings() {
    let q = check_request(&args(&[
        "--date", "2026-08-13", "--required", "hyperliquid:BTC", "--required", "bybit:ETH:x",
    ]))
    .unwrap();
    assert_eq!(q.date, "2026-08-13");
    assert_eq!(q.data_dir, "data");
    assert_eq!(q.logs, args(&[
        "data/raw/20260813_hyperliquid_BTC.log",
        "data/raw/20260813_bybit_ETH:x.log",
    ]));
    let err = |v: &[&str]| check_request(&args(v)).unwrap_err();
    assert_eq!(err(&["--date", "2026-8-13"]), "--date must be YYYY-MM-DD or YYYYMMDD");
    assert_eq!(err(&["--date", "20260813"]), "requires one or more --required venue:symbol entries");
    assert_eq!(
        err(&["--date", "20260813", "--required", "BTC"]),
        "invalid --required BTC; expected venue:symbol"
    );
    assert!(err(&[]).starts_with("usage: mp-determinism"));
}

#[test]
fn required_symbols_are_found_in_the_table() {
    let meta = |id, venue, s: &str| SymbolMeta { symbol_id: SymbolId(id), venue, venue_symbol: s.into() };
    let metas = vec![
        meta(0, Venue::Hyperliquid, "BTC"),
        meta(1, Venue::Bybit, "BTC"),
        meta(2, Venue::Hyperliquid, "ETH"),
    ];
    let pairs = vec![("hyperliquid".into(), "BTC".into()), ("hyperliquid".into(), "ETH".into())];
    let (venues, symbols) = required_universe(&metas, &pairs).unwrap();
    assert_eq!(venues, vec![Venue::Hyperliquid]);
    assert_eq!(symbols, vec![SymbolId(0), SymbolId(2)]);
    assert!(required_universe(&metas, &vec![("okx".into(), "BTC".into())]).is_err());
}

#[test]
fn size_buckets_are_read_in_order() {
    let read = |s: &str| {
        let denoted = split_text(s, ',')
            .iter()
            .map(|p| {
                let f = split_text(p.trim(), ':');
                (f.get(1).and_then(|x| number(x)), f.get(2).and_then(|x| number(x)))
            })
            .collect();
        parse_buckets(s, &denoted)
    };
    let b = read("small:0:25000, whale:25000:inf").unwrap();
    assert_eq!((b[0].name.as_str(), b[0].min, b[0].max), ("small", r(0.0), r(25_000.0)));
    assert_eq!((b[1].name.as_str(), b[1].max), ("whale", r(f64::MAX)));
    assert_eq!(bucket_at(&b, r(10.0)), Some(0));
    assert_eq!(bucket_at(&b, r(25_000.0)), Some(1));
    assert_eq!(bucket_at(&b, r(-1.0)), None);
    assert_eq!(bucket_at(&b, r(f64::NAN)), None);
    assert_eq!(read("a:1").unwrap_err(), "bad bucket def 'a:1' (want name:min:max)");
    assert_eq!(read("a:x:y").unwrap_err(), "bad max in 'a:x:y'");
    assert_eq!(read("a:x:5").unwrap_err(), "bad min in 'a:x:5'");
}

#[test]
fn rules_are_read_in_order() {
    let read = |v: &[&str]| {
        let specs = args(v);
        let denoted = specs
            .iter()
            .map(|s| split_text(s, ':').get(3).and_then(|x| number(x)))
            .collect();
        parse_rules(&specs, &denoted)
    };
    let rules = read(&["whale:footprint.imb.60s.whale:ge:0.4"]).unwrap();
    assert_eq!(rules[0].id, "whale");
    assert_eq!(rules[0].feature, "footprint.imb.60s.whale");
    assert_eq!((rules[0].op, rules[0].threshold), (RuleOp::Ge, r(0.4)));
    let twice = read(&["a:x:ge:1", "b:x:ge:1", "a:y:lt:2"]).unwrap();
    assert_eq!(rule_at(&twice, "a"), Some(2));
    assert_eq!(rule_at(&twice, "b"), Some(1));
    assert_eq!(rule_at(&twice, "c"), None);
    assert_eq!(read(&[]).unwrap_err(), "need at least one --rule");
    assert_eq!(
        read(&["a:b"]).unwrap_err(),
        "bad rule 'a:b' (want rule_id:feature:op:threshold)"
    );
    assert_eq!(read(&["a:b:eq:1"]).unwrap_err(), "bad op 'eq'");
    assert_eq!(read(&["a:b:lt:x"]).unwrap_err(), "bad threshold in 'a:b:lt:x'");
}

#[test]
fn an_interval_is_given_in_seconds() {
    assert_eq!(query_interval(&args(&[]), 60), Some(60_000_000_000));
    assert_eq!(query_interval(&args(&["--interval-secs", "5"]), 60), Some(5_000_000_000));
    assert_eq!(query_interval(&args(&["--interval-secs", "x"]), 60), Some(60_000_000_000));
    assert_eq!(query_interval(&args(&["--interval-secs", "9999999999999"]), 60), None);
}
