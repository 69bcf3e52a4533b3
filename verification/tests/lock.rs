use rig::config::Config;
use rig::lock::atomic_write_plan;
use rig::lock::backup_path;
use rig::lock::lock_verdict;
use rig::lock::save_and_sync;
use rig::lock::temp_path;
use rig::lock::test_tool_lock;
use rig::lock::Lock;
use rig::lock::LockAttempt;
use rig::lock::LockVerdict;
use rig::lock::ToolLock;
use rig::lock::WriteStep;
use rig::lock_file;
use rig::paths::Layout;
use rig::stamp::Timestamp;
use rig::table::Table;
use rig::tree::Tree;

fn tree_of(value: toml::Value) -> Tree {
    match value {
        toml::Value::String(s) => Tree::Text(s),
        toml::Value::Integer(n) => Tree::Integer(n as i128),
        toml::Value::Boolean(b) => Tree::Bool(b),
        toml::Value::Array(items) => Tree::List(items.into_iter().map(tree_of).collect()),
        toml::Value::Table(fields) => {
            let mut table = Table::new();
            for (key, value) in fields {
                table.insert(key, tree_of(value));
            }
            Tree::Branch(table)
        }
        _ => Tree::Other,
    }
}

fn value_of(tree: &Tree) -> toml::Value {
    match tree {
        Tree::Text(s) => toml::Value::String(s.clone()),
        Tree::Integer(n) => toml::Value::Integer(i64::try_from(*n).expect("fits")),
        Tree::Bool(b) => toml::Value::Boolean(*b),
        Tree::List(items) => toml::Value::Array(items.iter().map(value_of).collect()),
        Tree::Branch(fields) => {
            let mut table = toml::Table::new();
            for i in 0..fields.len() {
                table.insert(fields.key(i).to_string(), value_of(fields.value(i)));
            }
            toml::Value::Table(table)
        }
        _ => unreachable!(),
    }
}

fn write(lock: &Lock) -> String {
    toml::to_string_pretty(&value_of(&lock_file::write(lock).expect("serializes")))
        .expect("serializes")
}

fn parse(input: &str) -> Result<Lock, rig::failure::Failure> {
    let table: toml::Table = toml::from_str(input).expect("valid TOML");
    lock_file::parse(&tree_of(toml::Value::Table(table)))
}

fn ts(s: &str) -> Timestamp {
    Timestamp::parse(s).expect("valid RFC3339 fixture timestamp")
}

#[test]
fn round_trips_mixed_entries() {
    let mut lock = Lock::default();
    lock.tool.insert(
        "delta".to_string(),
        ToolLock {
            version: "0.18.2".to_string(),
            source: "github:dandavison/delta".to_string(),
            installed_at: ts("2026-08-03T12:00:00Z"),
            bins: vec!["~/.local/bin/delta".to_string()],
            completions: vec!["~/.local/share/rig/completions/_delta".to_string()],
            asset: Some("delta-0.18.2-x86_64-unknown-linux-gnu.tar.gz".to_string()),
            size: Some(4_823_104),
            pkg: Some("~/.local/share/rig/pkg/delta/0.18.2".to_string()),
            manager: None,
            root: None,
            eval_cacheable: None,
            eval_cached_output: None,
            eval_evidence: Vec::new(),
        },
    );
    lock.tool.insert(
        "@openai/codex".to_string(),
        ToolLock {
            version: "0.142.2".to_string(),
            source: "node:@openai/codex".to_string(),
            installed_at: ts("2026-08-03T12:05:00Z"),
            bins: vec!["~/.local/bin/codex".to_string()],
            completions: vec![],
            asset: None,
            size: None,
            pkg: None,
            manager: Some("bun".to_string()),
            root: Some("~/.local/install/global/node_modules/@openai/codex".to_string()),
            eval_cacheable: None,
            eval_cached_output: None,
            eval_evidence: Vec::new(),
        },
    );

    let text = write(&lock);
    let reparsed = parse(&text).expect("re-parses what we just wrote");

    assert_eq!(reparsed.tool.len(), 2);
    let delta = reparsed.tool.get("delta").expect("delta");
    assert_eq!(delta.size, Some(4_823_104));
    assert_eq!(delta.manager, None);

    let codex = reparsed.tool.get("@openai/codex").expect("codex");
    assert_eq!(codex.manager.as_deref(), Some("bun"));
    assert_eq!(codex.asset, None);
    assert!(codex.completions.is_empty());
}

#[test]
fn load_or_default_on_missing_file() {
    let lock = Lock::default();
    assert!(lock.tool.is_empty());
    assert!(parse("").expect("no error").tool.is_empty());
}

#[test]
fn save_and_sync_writes_both_lock_and_init_zsh() {
    let layout = Layout::new("/tmp/home", "~/.local");
    let config = Config::default();
    let lock = Lock::default();
    let writes = save_and_sync(&config, &lock, &layout, write(&lock));

    assert_eq!(writes.len(), 2);
    assert_eq!(writes[0].path, layout.lock_path);
    assert_eq!(writes[0].contents, write(&lock));
    assert_eq!(writes[1].path, layout.init_zsh_path);
    assert_eq!(
        writes[1].contents,
        rig::initzsh::render(&config, &lock, &layout)
    );
}

#[test]
fn save_backs_up_the_previous_generation() {
    let path = "/state/rig.lock";
    let first = atomic_write_plan(path, false, 7);
    assert!(
        !first.iter().any(|s| matches!(s, WriteStep::Backup(_))),
        "nothing to back up on first save"
    );

    let second = atomic_write_plan(path, true, 7);
    assert_eq!(second.len(), 4);
    assert!(matches!(&second[0], WriteStep::CreateDir(p) if p == "/state"));
    assert!(matches!(&second[1], WriteStep::Backup(p) if p == "/state/.rig.lock"));
    assert!(matches!(&second[2], WriteStep::WriteTemp(p) if p == "/state/rig.lock.tmp.7"));
    assert!(
        matches!(&second[3], WriteStep::Rename(p, q) if p == "/state/rig.lock.tmp.7" && q == path)
    );
}

#[test]
fn paths_beside_a_file() {
    assert_eq!(backup_path("/state/rig.lock"), "/state/.rig.lock");
    assert_eq!(backup_path("init.zsh"), ".init.zsh");
    assert_eq!(backup_path("/"), "/.backup");
    assert_eq!(temp_path("/s/init.zsh", 12), "/s/init.zsh.tmp.12");
    assert_eq!(temp_path("/s/plain", 0), "/s/plain..tmp.0");
}

#[test]
fn try_acquire_yields_none_while_held() {
    assert!(matches!(
        lock_verdict(LockAttempt::WouldBlock, true),
        LockVerdict::Busy
    ));
}

#[test]
fn every_attempt_has_its_verdict() {
    for nonblocking in [false, true] {
        assert!(matches!(
            lock_verdict(LockAttempt::Taken, nonblocking),
            LockVerdict::Acquired
        ));
        assert!(matches!(
            lock_verdict(LockAttempt::Interrupted, nonblocking),
            LockVerdict::Retry
        ));
        assert!(matches!(
            lock_verdict(LockAttempt::Failed, nonblocking),
            LockVerdict::Error
        ));
    }
    assert!(matches!(
        lock_verdict(LockAttempt::WouldBlock, false),
        LockVerdict::Error
    ));
}

fn full_record() -> ToolLock {
    ToolLock {
        version: "v1".to_string(),
        source: "github:a/b".to_string(),
        installed_at: ts("2024-02-29T23:59:59.000000001+05:30"),
        bins: vec![],
        completions: vec!["c1".to_string(), "c2".to_string()],
        asset: Some("".to_string()),
        size: Some(u64::MAX),
        pkg: Some("p".to_string()),
        manager: Some("npm".to_string()),
        root: Some("r".to_string()),
        eval_cacheable: Some(false),
        eval_cached_output: Some("two\nlines".to_string()),
        eval_evidence: vec!["PATH".to_string()],
    }
}

#[test]
fn every_field_is_read_back() {
    let mut lock = Lock::default();
    lock.tool.insert("full".to_string(), full_record());
    lock.tool.insert("bare".to_string(), test_tool_lock());
    let back = lock_file::parse(&lock_file::write(&lock).expect("written")).expect("read");
    assert_eq!(format!("{lock:?}"), format!("{back:?}"));
    assert_eq!(format!("{lock:?}"), format!("{:?}", lock.snapshot()));
}

#[test]
fn fields_that_hold_nothing_are_left_out() {
    let written = lock_file::write_tool(&test_tool_lock()).expect("written");
    assert_eq!(written.len(), 4);
    assert!(written.contains_key("version"));
    assert!(written.contains_key("source"));
    assert!(written.contains_key("bins"));
    assert!(
        matches!(written.get("installed_at"), Some(Tree::Text(s)) if s == "1970-01-01T00:00:00Z")
    );
    assert_eq!(lock_file::write_tool(&full_record()).expect("written").len(), 13);
}

#[test]
fn a_time_that_cannot_be_written_is_refused() {
    let mut lock = Lock::default();
    let mut tool = test_tool_lock();
    tool.installed_at = Timestamp { nanos: 0, offset: 1 };
    lock.tool.insert("odd".to_string(), tool);
    assert_eq!(
        lock_file::write(&lock).expect_err("no such offset").full(),
        "failed to serialize rig.lock: in `tool.odd`: invalid `installed_at`"
    );
}

#[test]
fn times_are_read_and_written() {
    let at = ts("2026-08-03T12:05:00Z");
    assert_eq!(at.nanos, 1_785_758_700_000_000_000);
    assert_eq!(at.offset, 0);
    assert_eq!(at.to_text().as_deref(), Some("2026-08-03T12:05:00Z"));
    let east = ts("1970-01-01T01:00:00.5+01:00");
    assert_eq!(east.nanos, 500_000_000);
    assert_eq!(east.offset, 3600);
    assert_eq!(east.to_text().as_deref(), Some("1970-01-01T01:00:00.5+01:00"));
    let west = ts("1969-12-31T23:29:00-00:30");
    assert_eq!(west.nanos, -60_000_000_000);
    assert_eq!(west.offset, -1800);
    assert_eq!(west.to_text().as_deref(), Some("1969-12-31T23:29:00-00:30"));
    assert!(Timestamp::parse("2026-08-03").is_none());
    assert!(Timestamp::parse("").is_none());
    assert!(Timestamp { nanos: i128::MAX, offset: 0 }.to_text().is_none());
    assert!(Timestamp { nanos: 0, offset: i32::MAX }.to_text().is_none());
    assert!(Timestamp { nanos: -70_000_000_000_000_000_000, offset: 0 }.to_text().is_none());
}

const RECORD: &str = "[tool.x]\nversion = \"1\"\nsource = \"s\"\ninstalled_at = \"1970-01-01T00:00:00Z\"\nbins = []\n";

#[test]
fn what_a_record_lacks_is_named() {
    assert!(parse(RECORD).is_ok());
    for field in ["version", "source", "installed_at", "bins"] {
        let without: String = RECORD
            .lines()
            .filter(|l| !l.starts_with(field))
            .map(|l| format!("{l}\n"))
            .collect();
        assert_eq!(
            parse(&without).expect_err("incomplete").full(),
            format!("failed to parse rig.lock: in `tool.x`: missing field `{field}`")
        );
        let wrong: String = RECORD
            .lines()
            .map(|l| {
                if l.starts_with(field) {
                    format!("{field} = 1\n")
                } else {
                    format!("{l}\n")
                }
            })
            .collect();
        assert_eq!(
            parse(&wrong).expect_err("wrong type").full(),
            format!("failed to parse rig.lock: in `tool.x`: invalid `{field}`")
        );
    }
    let others = [
        ("completions", "\"x\""),
        ("completions", "[1]"),
        ("asset", "1"),
        ("size", "-1"),
        ("size", "\"1\""),
        ("pkg", "true"),
        ("manager", "1"),
        ("root", "[]"),
        ("eval_cacheable", "\"yes\""),
        ("eval_cached_output", "1"),
        ("eval_evidence", "{}"),
    ];
    for (field, value) in others {
        assert_eq!(
            parse(&format!("{RECORD}{field} = {value}\n"))
                .expect_err("wrong type")
                .full(),
            format!("failed to parse rig.lock: in `tool.x`: invalid `{field}`")
        );
    }
    assert!(parse(&format!("{RECORD}unknown = 1.5\n")).is_ok());
    assert_eq!(
        parse("tool = 1\n").expect_err("not a table").full(),
        "failed to parse rig.lock: invalid `tool`"
    );
    assert_eq!(
        parse("[tool]\nx = 1\n").expect_err("not a table").full(),
        "failed to parse rig.lock: in `tool.x`: invalid `tool`"
    );
    assert_eq!(
        lock_file::parse(&Tree::Null).expect_err("not a table").full(),
        "failed to parse rig.lock: invalid `rig.lock`"
    );
}

#[test]
fn a_record_may_be_a_list_of_its_fields() {
    let front = "\"1.0\", \"github:a/x\", \"1970-01-01T00:00:00Z\", [\"/b/x\"], [], \"x.zip\", 7, \"/p\", \"npm\", \"/r\", true";
    let record = |more: &str| parse(&format!("[tool]\nx = [{front}{more}]\n"));
    let lock = record(", \"out\"").expect("complete");
    let tool = lock.tool.get("x").expect("recorded");
    assert_eq!(tool.version, "1.0");
    assert_eq!(tool.installed_at, Timestamp::epoch());
    assert_eq!(tool.bins, ["/b/x"]);
    assert_eq!(tool.size, Some(7));
    assert_eq!(tool.eval_cacheable, Some(true));
    assert_eq!(tool.eval_cached_output.as_deref(), Some("out"));
    assert!(tool.eval_evidence.is_empty());
    let lock = record(", \"out\", [\"PATH\"], 1").expect("complete");
    assert_eq!(lock.tool.get("x").expect("recorded").eval_evidence, ["PATH"]);
    assert_eq!(
        record("").expect_err("too short").full(),
        "failed to parse rig.lock: in `tool.x`: invalid length 11"
    );
    assert_eq!(
        record(", 1").expect_err("wrong type").full(),
        "failed to parse rig.lock: in `tool.x`: invalid `eval_cached_output`"
    );
}
