use bogo_gpu::config::UserConfig;
use bogo_gpu::messages::{
    member_number, member_text, read_object, stop_text, HelloMessage, JobMessage, Member,
    ResultMessage, PROTOCOL_VERSION,
};
use bogo_gpu::net::{Backoff, Dialogue, NetAction, NetEvent, Reaction, Report};
use bogo_gpu::notices::{notice, notice_of, Notice};
use bogo_gpu::worker::{GuiStatsInner, Tick};
use std::time::Instant;

fn stats() -> GuiStatsInner {
    GuiStatsInner::new(&None, Vec::new(), Instant::now())
}

fn report(seed: &str) -> Report {
    Report {
        seed_str: seed.to_string(),
        total_done: 4096,
        best_correct: 9,
        best_arr: [3u8; 25],
        best_index: 17,
    }
}

fn parsed(text: &str) -> serde_json::Value {
    serde_json::from_str::<serde_json::Value>(text).unwrap()
}

#[test]
fn the_introduction_names_the_user() {
    let user = UserConfig {
        uuid: "u-1".to_string(),
        nickname: "ni\"ck".to_string(),
        code: "c\n".to_string(),
    };
    let hello = HelloMessage::for_user(&user);
    assert_eq!((hello.msg_type.as_str(), hello.v), ("hello", PROTOCOL_VERSION));
    let text = hello.to_text();
    let value = parsed(&text);
    assert_eq!(value.as_object().unwrap().len(), 5);
    assert_eq!(value["type"], "hello");
    assert_eq!(value["v"], 5);
    assert_eq!(value["uuid"], "u-1");
    assert_eq!(value["nickname"], "ni\"ck");
    assert_eq!(value["code"], "c\n");
}

#[test]
fn a_report_is_written_out() {
    let text = report("99").to_text(&"99".to_string());
    let value = parsed(&text);
    assert_eq!(value.as_object().unwrap().len(), 6);
    assert_eq!(value["type"], "result");
    assert_eq!(value["seed"], "99");
    assert_eq!(value["total_done"], 4096);
    assert_eq!(value["best_correct"], 9);
    assert_eq!(value["best_index"], 17);
    assert_eq!(value["best_arr"].as_array().unwrap().len(), 25);
    assert_eq!(value["best_arr"][24], 3);
    let message = ResultMessage::new(&"99".to_string(), 4096, 9, &[3u8; 25], 17);
    assert_eq!(message.to_text(), text);
    assert_eq!(message.best_arr, vec![3u32; 25]);
}

#[test]
fn the_largest_numbers_are_written_out() {
    let message = ResultMessage::new(&"".to_string(), u64::MAX, u32::MAX, &[255u8; 25], u64::MAX);
    let value = parsed(&message.to_text());
    assert_eq!(value["total_done"].as_u64(), Some(u64::MAX));
    assert_eq!(value["best_index"].as_u64(), Some(u64::MAX));
    assert_eq!(value["best_correct"].as_u64(), Some(u32::MAX as u64));
}

#[test]
fn the_farewell_is_a_stop() {
    assert_eq!(stop_text(), "{\"type\":\"stop\"}");
}

#[test]
fn a_report_is_made_on_a_tick() {
    let tick = Tick {
        seed_str: "5".to_string(),
        total_done: 10,
        shuffles: 4,
        best_correct: 2,
        best_arr: [1u8; 25],
        best_index: 8,
        great: Vec::new(),
    };
    let r = Report::of_tick(&tick);
    assert_eq!((r.seed_str.as_str(), r.total_done, r.best_correct), ("5", 10, 2));
    assert_eq!((r.best_arr, r.best_index), ([1u8; 25], 8));
}

#[test]
fn members_are_looked_up() {
    let members = vec![
        ("a".to_string(), Member::Text("first".to_string())),
        ("a".to_string(), Member::Text("second".to_string())),
        ("n".to_string(), Member::Number(Some(7))),
        ("f".to_string(), Member::Number(None)),
        ("b".to_string(), Member::Flag(true)),
    ];
    assert_eq!(member_text(&members, "a", "x"), "first");
    assert_eq!(member_text(&members, "n", "x"), "x");
    assert_eq!(member_text(&members, "z", "x"), "x");
    assert_eq!(member_number(&members, "n"), 7);
    assert_eq!(member_number(&members, "f"), 0);
    assert_eq!(member_number(&members, "b"), 0);
    let job = JobMessage::from_members(&members);
    assert_eq!((job.msg_type.as_str(), job.seed.as_str(), job.count), ("", "", 0));
}

#[test]
fn a_job_becomes_a_lease() {
    let mut d = Dialogue::new();
    let mut s = stats();
    match d.handle_message(&mut s, "{\"type\":\"job\",\"seed\":\"123\",\"count\":456}") {
        Reaction::Lease(l) => {
            assert_eq!((l.seed_str.as_str(), l.seed, l.count), ("123", 123, 456));
        }
        other => panic!("no lease: {other:?}"),
    }
    assert_eq!(d.last_seed_str, Some("123".to_string()));
}

#[test]
fn a_job_without_a_count_is_empty() {
    let mut d = Dialogue::new();
    let mut s = stats();
    match d.handle_message(&mut s, "{\"type\":\"job\",\"seed\":\"+7\",\"count\":-3}") {
        Reaction::Lease(l) => assert_eq!((l.seed_str.as_str(), l.seed, l.count), ("+7", 7, 0)),
        other => panic!("no lease: {other:?}"),
    }
}

#[test]
fn a_job_without_a_number_is_passed_over() {
    let mut d = Dialogue::new();
    let mut s = stats();
    for text in [
        "{\"type\":\"job\",\"seed\":\"abc\",\"count\":1}",
        "{\"type\":\"job\",\"seed\":\" 1\",\"count\":1}",
        "{\"type\":\"job\",\"seed\":\"-1\",\"count\":1}",
        "{\"type\":\"job\",\"seed\":\"18446744073709551616\",\"count\":1}",
        "{\"type\":\"job\",\"seed\":123,\"count\":1}",
        "{\"type\":\"job\",\"count\":1}",
    ] {
        assert!(matches!(d.handle_message(&mut s, text), Reaction::Nothing));
    }
    assert_eq!(d.last_seed_str, None);
}

#[test]
fn a_welcome_is_shown() {
    let mut d = Dialogue::new();
    let mut s = stats();
    let text = "{\"type\":\"welcome\",\"nickname\":\"Ann\",\"lifetime_shuffles\":77}";
    assert!(matches!(d.handle_message(&mut s, text), Reaction::Nothing));
    assert_eq!(s.nickname, "Ann");
    assert_eq!(s.total_shuffles, 77);
    assert_eq!(s.status, "connected ✅ — welcome, Ann!");
    d.handle_message(&mut s, "{\"type\":\"welcome\"}");
    assert_eq!(s.nickname, "?");
    assert_eq!(s.total_shuffles, 0);
    assert_eq!(s.status, "connected ✅ — welcome, ?!");
}

#[test]
fn a_credit_sets_the_rate() {
    let mut d = Dialogue::new();
    let mut s = stats();
    d.handle_message(&mut s, "{\"type\":\"credited\",\"credit\":5,\"rate\":12}");
    assert_eq!(s.shuffles_per_sec, 12);
    d.handle_message(&mut s, "{\"type\":\"credited\",\"rate\":1.5}");
    assert_eq!(s.shuffles_per_sec, 0);
}

#[test]
fn a_rejected_seed_is_replaced_by_the_latest() {
    let mut d = Dialogue::new();
    let mut s = stats();
    d.on_event(&mut s, NetEvent::ReportSent(report("1")));
    d.handle_message(&mut s, "{\"type\":\"job\",\"seed\":\"2\",\"count\":9}");
    let text = "{\"type\":\"rejected\",\"reason\":\"Unknown SEED\"}";
    match d.handle_message(&mut s, text) {
        Reaction::Send(out) => {
            assert_eq!(out, report("1").to_text(&"2".to_string()));
            let value = parsed(&out);
            assert_eq!(value["seed"], "2");
            assert_eq!(value["best_index"], 17);
        }
        other => panic!("nothing sent: {other:?}"),
    }
    assert_eq!(s.status, "❌ rejected: Unknown SEED");
}

#[test]
fn a_rejected_report_is_retried_once() {
    let mut d = Dialogue::new();
    let mut s = stats();
    d.on_event(&mut s, NetEvent::ReportSent(report("1")));
    d.handle_message(&mut s, "{\"type\":\"job\",\"seed\":\"2\",\"count\":9}");
    let text = "{\"type\":\"rejected\",\"reason\":\"stale seed\"}";
    assert!(matches!(d.handle_message(&mut s, text), Reaction::Send(_)));
    // the retried report is now the latest one
    assert_eq!(d.last_report.as_ref().unwrap().seed_str, "2");
    assert_eq!(d.last_report.as_ref().unwrap().best_index, 17);
    for _ in 0..3 {
        assert!(matches!(d.handle_message(&mut s, text), Reaction::Nothing));
    }
    assert_eq!(s.status, "❌ rejected: stale seed");
    // another job makes another retry possible
    d.handle_message(&mut s, "{\"type\":\"job\",\"seed\":\"3\",\"count\":9}");
    match d.handle_message(&mut s, text) {
        Reaction::Send(out) => assert_eq!(parsed(&out)["seed"], "3"),
        other => panic!("nothing sent: {other:?}"),
    }
    assert!(matches!(d.handle_message(&mut s, text), Reaction::Nothing));
}

#[test]
fn messages_are_cloned() {
    let user = UserConfig {
        uuid: "u".to_string(),
        nickname: "n".to_string(),
        code: "c".to_string(),
    };
    let hello = HelloMessage::for_user(&user);
    assert_eq!(hello.clone().to_text(), hello.to_text());
    let result = ResultMessage::new(&"9".to_string(), 1, 2, &[3u8; 25], 4);
    assert_eq!(result.clone().to_text(), result.to_text());
    let members = vec![("seed".to_string(), Member::Text("5".to_string()))];
    let job = JobMessage::from_members(&members).clone();
    assert_eq!((job.seed.as_str(), job.count), ("5", 0));
}

#[test]
fn other_rejections_are_only_shown() {
    let mut s = stats();
    // the reason does not speak of the seed
    let mut d = Dialogue::new();
    d.on_event(&mut s, NetEvent::ReportSent(report("1")));
    d.handle_message(&mut s, "{\"type\":\"job\",\"seed\":\"2\"}");
    let r = d.handle_message(&mut s, "{\"type\":\"rejected\",\"reason\":\"too fast\"}");
    assert!(matches!(r, Reaction::Nothing));
    // the latest seed is the one that was reported
    let mut d = Dialogue::new();
    d.on_event(&mut s, NetEvent::ReportSent(report("2")));
    d.handle_message(&mut s, "{\"type\":\"job\",\"seed\":\"2\"}");
    let r = d.handle_message(&mut s, "{\"type\":\"rejected\",\"reason\":\"seed\"}");
    assert!(matches!(r, Reaction::Nothing));
    // nothing was reported, or no seed is known
    let mut d = Dialogue::new();
    d.handle_message(&mut s, "{\"type\":\"job\",\"seed\":\"2\"}");
    assert!(matches!(d.retry("seed"), Reaction::Nothing));
    let mut d = Dialogue::new();
    d.on_event(&mut s, NetEvent::ReportSent(report("1")));
    assert!(matches!(d.retry("seed"), Reaction::Nothing));
}

#[test]
fn a_rejection_without_a_reason_shows_the_message() {
    let mut d = Dialogue::new();
    let mut s = stats();
    d.handle_message(&mut s, "{\"type\":\"rejected\"}");
    assert_eq!(s.status, "❌ rejected: {\"type\":\"rejected\"}");
}

#[test]
fn a_ban_ends_the_session() {
    let mut d = Dialogue::new();
    let mut s = stats();
    assert!(matches!(d.handle_message(&mut s, "{\"type\":\"banned\"}"), Reaction::Cancel));
}

#[test]
fn other_messages_are_passed_over() {
    let mut d = Dialogue::new();
    let mut s = stats();
    for text in ["", "no json", "[1,2]", "7", "{}", "{\"type\":5}", "{\"type\":\"news\"}"] {
        assert!(matches!(d.handle_message(&mut s, text), Reaction::Nothing));
    }
    assert_eq!(s.status, "stopped");
}

#[test]
fn events_of_a_connection_are_answered() {
    let mut d = Dialogue::new();
    let mut s = stats();
    let job = "{\"type\":\"job\",\"seed\":\"3\",\"count\":4}".to_string();
    match d.on_event(&mut s, NetEvent::Text(job)) {
        NetAction::Lease(l) => assert_eq!((l.seed, l.count), (3, 4)),
        other => panic!("no lease: {other:?}"),
    }
    match d.on_event(&mut s, NetEvent::Ping(vec![1, 2])) {
        NetAction::Pong(data) => assert_eq!(data, vec![1, 2]),
        other => panic!("no answer: {other:?}"),
    }
    match d.on_event(&mut s, NetEvent::Report(report("1"))) {
        NetAction::SendReport(text, r) => {
            assert_eq!(text, report("1").to_text(&"1".to_string()));
            assert_eq!(r.seed_str, "1");
            // a report that could not be sent is not remembered
            assert!(d.last_report.is_none());
            assert!(matches!(d.on_event(&mut s, NetEvent::ReportSent(r)), NetAction::Continue));
        }
        other => panic!("no report: {other:?}"),
    }
    assert_eq!(d.last_report.as_ref().unwrap().seed_str, "1");
    let rejected = "{\"type\":\"rejected\",\"reason\":\"seed\"}".to_string();
    assert!(matches!(d.on_event(&mut s, NetEvent::Text(rejected)), NetAction::Send(_)));
    let banned = "{\"type\":\"banned\"}".to_string();
    assert!(matches!(d.on_event(&mut s, NetEvent::Text(banned)), NetAction::Cancel));
    assert!(matches!(d.on_event(&mut s, NetEvent::Ignored), NetAction::Continue));
    assert!(matches!(d.on_event(&mut s, NetEvent::Closed), NetAction::Lost));
    assert!(matches!(d.on_event(&mut s, NetEvent::ReportsEnded), NetAction::Leave));
    match d.on_event(&mut s, NetEvent::Cancelled) {
        NetAction::Farewell(text) => assert_eq!(text, stop_text()),
        other => panic!("no farewell: {other:?}"),
    }
}

#[test]
fn pauses_double_up_to_half_a_minute() {
    let mut backoff = Backoff::new();
    let mut pauses: Vec<u64> = Vec::new();
    for _ in 0..7 {
        assert_eq!(backoff.pause(), backoff.pause());
        pauses.push(backoff.after_connection(true, false).unwrap());
    }
    assert_eq!(pauses, vec![2, 4, 8, 16, 30, 30, 30]);
}

#[test]
fn an_orderly_end_is_not_followed_by_another_attempt() {
    let mut backoff = Backoff::new();
    assert_eq!(backoff.after_connection(false, false), None);
    assert_eq!(backoff.after_connection(false, true), None);
    assert_eq!(backoff.after_connection(true, true), None);
    assert_eq!(backoff.pause(), 2);
}

#[test]
fn what_is_written_is_read_back() {
    let members = read_object(&report("99").to_text(&"98".to_string())).unwrap();
    assert_eq!(members.len(), 6);
    assert_eq!(member_text(&members, "seed", ""), "98");
    assert_eq!(member_number(&members, "total_done"), 4096);
    let numbers = members.iter().find(|(key, _)| key == "best_arr");
    match numbers {
        Some((_, Member::List(items))) => assert_eq!(items, &vec![Some(3u64); 25]),
        other => panic!("no list: {other:?}"),
    }
}

#[test]
fn only_objects_have_members() {
    for text in ["null", "true", "17", "\"job\"", "[1, 2]"] {
        assert!(read_object(text).unwrap().is_empty());
    }
    assert!(read_object("no json").is_none());
    assert!(read_object("").is_none());
    let text = r#"{"a": null, "b": [1, -2, 0.5, "x"], "c": {"d": 1}, "e": -1, "f": false}"#;
    let members = read_object(text).unwrap();
    let shown: Vec<String> = members.iter().map(|(key, m)| format!("{key} {m:?}")).collect();
    assert_eq!(
        shown,
        vec![
            "a Null",
            "b List([Some(1), None, None, None])",
            "c Object",
            "e Number(None)",
            "f Flag(false)"
        ]
    );
}

fn noted(text: &str) -> String {
    match notice(text) {
        Some(Notice::Info(line)) => format!("info {line}"),
        Some(Notice::Error(line)) => format!("error {line}"),
        Some(Notice::Debug(line)) => format!("debug {line}"),
        None => "nothing".to_string(),
    }
}

#[test]
fn messages_are_noted_down() {
    let job = r#"{"type":"job","seed":"42","count":7}"#;
    assert_eq!(noted(job), "info 🎯 Job: seed=42 count=7");
    assert_eq!(noted(r#"{"type":"job","seed":"x","count":7}"#), "nothing");
    let welcome = r#"{"type":"welcome","nickname":"ann","lifetime_shuffles":900}"#;
    assert_eq!(noted(welcome), "info 👋 Welcome ann! lifetime=900");
    assert_eq!(noted(r#"{"type":"welcome"}"#), "info 👋 Welcome ?! lifetime=0");
    let credited = r#"{"type":"credited","credit":5,"rate":6,"batch_best":7}"#;
    assert_eq!(noted(credited), "info 📊 5 shuffles | Best: 7 | Rate: 6/s");
    let rejected = r#"{"type":"rejected","reason":"bad seed"}"#;
    assert_eq!(noted(rejected), "error ❌ Rejected: bad seed");
    let banned = r#"{"type":"banned"}"#;
    assert_eq!(noted(banned), format!("error 🔨 Banned: {banned}"));
    let other = r#"{"type":"news"}"#;
    assert_eq!(noted(other), format!("debug 📨 Server (news): {other}"));
    assert_eq!(noted("no json"), "nothing");
    let members = vec![("type".to_string(), Member::Text("banned".to_string()))];
    match notice_of("t", &members) {
        Some(Notice::Error(line)) => assert_eq!(line, "🔨 Banned: t"),
        other => panic!("no error: {other:?}"),
    }
}
