use moba_lobby::scripts::{resolve_relative, AssetHolder, AssetProgress, LoopStep, PathPart, Resumed, ScriptRunner};

#[test]
fn a_script_that_waits_for_another_runs_after_it() {
    let mut assets = AssetHolder::new();
    let mut runner = ScriptRunner::new(vec![1]);
    assert!(!runner.is_complete());
    assert_eq!(runner.next(), None);

    // the map script has loaded and starts
    assert_eq!(runner.rescan(&vec![1]), vec![1]);
    assert_eq!(runner.next(), Some(1));
    assert_eq!(runner.started, vec![1]);

    // it waits for script 2, which is not loaded yet
    assert_eq!(runner.after_resume(&mut assets, Resumed::AfterScript(2)), None);
    assert_eq!(runner.next(), None);
    assert_eq!(runner.waiting_for_load, vec![2]);
    assert_eq!(runner.waiting_for_others[0].dependencies, vec![2]);

    // script 2 loads and runs, registers an asset and finishes
    assert_eq!(runner.rescan(&vec![2]), vec![2]);
    assert_eq!(runner.next(), Some(2));
    assert_eq!(runner.after_resume(&mut assets, Resumed::RegisterAsset(10)), None);
    assert_eq!(runner.next(), Some(2));
    assert_eq!(runner.after_resume(&mut assets, Resumed::Finished), Some(2));
    assert_eq!(assets.total_asset_count, 1);
    assert_eq!(assets.waiting_assets, vec![10]);
    assert!(!runner.is_complete());

    // the map script goes on and finishes
    assert_eq!(runner.rescan(&vec![]), Vec::<u64>::new());
    assert_eq!(runner.next(), Some(1));
    assert_eq!(runner.after_resume(&mut assets, Resumed::Immediately), None);
    assert_eq!(runner.after_resume(&mut assets, Resumed::Finished), Some(1));
    assert!(runner.is_complete());
    assert_eq!(runner.loaded_and_executed, vec![2, 1]);
}

#[test]
fn waiting_for_a_script_that_has_run_goes_on_at_once() {
    let mut assets = AssetHolder::new();
    let mut runner = ScriptRunner::new(vec![1, 2]);
    runner.rescan(&vec![1, 2]);
    assert_eq!(runner.next(), Some(1));
    runner.after_resume(&mut assets, Resumed::Finished);
    assert_eq!(runner.next(), Some(2));
    runner.after_resume(&mut assets, Resumed::AfterScript(1));
    assert_eq!(runner.next(), Some(2));
    assert!(runner.waiting_for_others.is_empty());
}

#[test]
fn a_failed_script_is_dropped() {
    let mut assets = AssetHolder::new();
    let mut runner = ScriptRunner::new(vec![1]);
    runner.rescan(&vec![1]);
    assert_eq!(runner.after_resume(&mut assets, Resumed::Failed), None);
    assert!(runner.is_complete());
    assert!(runner.loaded_and_executed.is_empty());
}

#[test]
fn a_started_dependency_is_not_loaded_again() {
    let mut assets = AssetHolder::new();
    let mut runner = ScriptRunner::new(vec![1, 2]);
    runner.rescan(&vec![1, 2]);
    runner.after_resume(&mut assets, Resumed::AfterScript(2));
    assert!(runner.waiting_for_load.is_empty());
    assert_eq!(runner.next(), Some(2));
}

#[test]
fn assets_are_collected_as_they_load() {
    let mut assets = AssetHolder::new();
    assets.add_asset(10);
    assets.add_asset(11);
    assets.add_asset(12);
    assert_eq!(assets.progress(), AssetProgress::Loading { done: 0, total: 3 });
    assert!(!assets.collect_loaded(&vec![12, 10]));
    assert_eq!(assets.waiting_assets, vec![11]);
    assert_eq!(assets.done_assets, vec![10, 12]);
    assert_eq!(assets.progress(), AssetProgress::Loading { done: 2, total: 3 });
    assert!(assets.collect_loaded(&vec![11]));
    assert_eq!(assets.progress(), AssetProgress::Done);
    assert_eq!(AssetHolder::new().progress(), AssetProgress::Done);
}

fn name(s: &str) -> PathPart {
    PathPart::Name(s.to_string())
}

#[test]
fn relative_paths_are_taken_from_the_script_directory() {
    let origin = vec![name("maps"), name("default"), name("main.lua")];
    let path = vec![PathPart::Current, name("units.lua")];
    assert_eq!(
        resolve_relative(&path, &origin),
        vec![name("maps"), name("default"), PathPart::Current, name("units.lua")]
    );
    let path = vec![PathPart::Parent, name("common.lua")];
    assert_eq!(
        resolve_relative(&path, &origin),
        vec![name("maps"), name("default"), PathPart::Parent, name("common.lua")]
    );
    let path = vec![name("champs"), name("a.lua")];
    assert_eq!(resolve_relative(&path, &origin), path);
    let path = vec![PathPart::Root, name("a.lua")];
    assert_eq!(resolve_relative(&path, &origin), path);
}

#[test]
fn the_loop_resumes_stops_when_stale_and_goes_on_when_complete() {
    let mut assets = AssetHolder::new();
    let mut runner = ScriptRunner::new(vec![1]);
    runner.rescan(&vec![]);
    assert_eq!(runner.loop_step(), LoopStep::Stale);
    // a stale scan is stable
    assert_eq!(runner.rescan(&vec![]), vec![]);
    assert_eq!(runner.loop_step(), LoopStep::Stale);
    runner.rescan(&vec![1]);
    assert_eq!(runner.loop_step(), LoopStep::Resume(1));
    runner.after_resume(&mut assets, Resumed::Finished);
    assert_eq!(runner.loop_step(), LoopStep::Complete);
}
