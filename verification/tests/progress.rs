use pzmod::jobs::Job;
use pzmod::progress::{
    progress_lines, progress_push, ProgressJob, ProgressStore, PROGRESS_CAP,
};
use pzmod::rate::{
    background_nap, ForegroundGuard, GapStep, Gate, BROWSE_GAP, ITEM_GAP, NAP,
    RATE_LIMIT_COOLDOWN, YIELD,
};

#[test]
fn progress_store_is_capped_and_incremental() {
    let mut store = ProgressStore {
        active: true,
        ..ProgressStore::default()
    };
    for index in 0..505 {
        store.push(format!("line {index}"));
    }
    let all = store.snapshot(0);
    assert_eq!(all.seq, 505);
    assert_eq!(all.lines.len(), PROGRESS_CAP);
    assert_eq!(all.lines[0], "line 5");
    assert!(all.active);
    assert_eq!(store.snapshot(504).lines, ["line 504"]);
}

#[test]
fn a_job_clears_the_lines_and_keeps_the_count() {
    let mut store = ProgressStore::default();
    let job = ProgressJob::start(&mut store);
    progress_push(&mut store, "one");
    progress_lines(&mut store, &vec!["two".to_string(), "three".to_string()]);
    let reply = store.snapshot(1);
    assert_eq!(reply.seq, 3);
    assert_eq!(reply.lines, ["two", "three"]);
    assert!(reply.active);
    job.finish(&mut store);
    assert!(!store.snapshot(0).active);
    // whoever asks from beyond the end gets nothing
    assert!(store.snapshot(99).lines.is_empty());
    let job = ProgressJob::start(&mut store);
    let reply = store.snapshot(0);
    assert_eq!(reply.seq, 3);
    assert!(reply.lines.is_empty());
    job.finish(&mut store);
}

#[test]
fn a_rate_limit_slows_every_page_down_then_expires() {
    let mut gate = Gate::new();
    let now = 5_000_000_000;
    gate.note_rate_limit(now);
    assert_eq!(gate.effective_gap(ITEM_GAP, now), BROWSE_GAP);
    gate.floor_until = Some(now - 1_000_000_000);
    assert_eq!(gate.effective_gap(ITEM_GAP, now), ITEM_GAP);
    assert!(gate.floor_until.is_none(), "penalty must clear itself");
}

#[test]
fn a_slowdown_lasts_for_its_time() {
    let mut gate = Gate::new();
    gate.note_rate_limit(10);
    assert_eq!(gate.effective_gap(ITEM_GAP, 10 + RATE_LIMIT_COOLDOWN - 1), BROWSE_GAP);
    assert_eq!(gate.effective_gap(ITEM_GAP, 10 + RATE_LIMIT_COOLDOWN), ITEM_GAP);
}

#[test]
fn pages_are_spaced() {
    let mut gate = Gate::new();
    assert!(gate.rate_limit_gap(true, ITEM_GAP, 0) == GapStep::Go);
    assert!(gate.rate_limit_gap(true, ITEM_GAP, 300_000_000) == GapStep::Wait(500_000_000));
    assert!(gate.rate_limit_gap(true, ITEM_GAP, 800_000_000) == GapStep::Wait(0));
    assert!(gate.rate_limit_gap(true, ITEM_GAP, 800_000_001) == GapStep::Go);
    assert_eq!(gate.last_hit, Some(800_000_001));
}

#[test]
fn the_background_gives_way() {
    let mut gate = Gate::new();
    let guard = ForegroundGuard::new(&mut gate);
    assert!(gate.rate_limit_gap(false, ITEM_GAP, 0) == GapStep::Yield(YIELD));
    guard.leave(&mut gate);
    assert!(gate.rate_limit_gap(false, ITEM_GAP, 0) == GapStep::Go);
    assert_eq!(background_nap(200_000_000, 0, 0), Some(NAP));
    assert_eq!(background_nap(200_000_000, 180_000_000, 0), Some(20_000_000));
    assert_eq!(background_nap(200_000_000, 200_000_000, 0), None);
    assert_eq!(background_nap(200_000_000, 0, 1), None);
}

#[test]
fn jobs_tell_when_they_begin_and_end() {
    let e = "lỗi".to_string();
    let install = Job::Install("10".to_string());
    assert_eq!(install.opening(), Some("đang cài 10".to_string()));
    assert_eq!(install.closing(Some(&e)), Some("! 10: lỗi".to_string()));
    assert_eq!(install.closing(None), None);
    let remove = Job::Remove("10".to_string());
    assert_eq!(remove.opening(), Some("đang gỡ 10".to_string()));
    assert_eq!(remove.closing(Some(&e)), Some("! 10: lỗi".to_string()));
    assert_eq!(Job::Update.opening(), Some("đang cập nhật tất cả".to_string()));
    assert_eq!(Job::Update.closing(Some(&e)), Some("! cập nhật thất bại: lỗi".to_string()));
    let start = Job::Bisect("start".to_string());
    assert!(start.is_followed());
    assert_eq!(start.opening(), Some("bisect: start".to_string()));
    assert_eq!(start.closing(None), Some("bisect start: xong".to_string()));
    assert_eq!(start.closing(Some(&e)), Some("! bisect start: lỗi".to_string()));
    let view = Job::Bisect("view".to_string());
    assert!(!view.is_followed());
    assert_eq!(view.opening(), None);
    assert_eq!(view.closing(Some(&e)), None);
}
