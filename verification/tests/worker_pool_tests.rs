use puzzles::cafeteria::CafeteriaHandler;
use puzzles::cafeteria::Category;
use puzzles::cafeteria::FailingHandler;
use puzzles::pipeline::Closed;
use puzzles::pipeline::Pipeline;
use puzzles::pipeline::Policy;
use puzzles::pipeline::StepEvent;

fn orders(texts: &[&str]) -> Vec<String> {
    texts.iter().map(|t| t.to_string()).collect()
}

#[test]
fn every_task_yields_exactly_one_result() {
    let menu = orders(&["dog", "salad", "burger", "soup", "sandwich", "stew", "salad bowl"]);
    let n = menu.len();
    let report = Pipeline::run_batch(CafeteriaHandler, menu, 3, Policy::DropTask, &vec![
        0, 1, 2, 2, 1, 0, 0, 1,
    ]);
    assert_eq!(report.results.len(), n);
    assert_eq!(report.failures, 0);
    assert!(report.leftover.is_empty());
}

#[test]
fn single_worker_pool_works() {
    let report =
        Pipeline::run_batch(CafeteriaHandler, orders(&["salad"]), 1, Policy::StopWorker, &vec![]);
    assert_eq!(report.results, vec![Category::Salad]);
    assert_eq!(report.failures, 0);
}

#[test]
fn failing_handler_drop_policy_drains_everything() {
    let menu = orders(&["dog", "salad", "soup"]);
    let report = Pipeline::run_batch(FailingHandler, menu, 2, Policy::DropTask, &vec![]);
    assert_eq!(report.results.len(), 0);
    assert_eq!(report.failures, 3);
    assert!(report.leftover.is_empty());
}

#[test]
fn failing_handler_stop_policy_shrinks_pool() {
    let menu = orders(&["dog", "salad", "soup", "stew", "pie"]);
    let report = Pipeline::run_batch(FailingHandler, menu, 2, Policy::StopWorker, &vec![]);
    // each worker dies on its first task; the rest is never pulled
    assert_eq!(report.results.len(), 0);
    assert_eq!(report.failures, 2);
    assert_eq!(report.leftover.len(), 3);
}

#[test]
fn dropped_consumer_terminates_workers_without_error() {
    let mut p: Pipeline<String, Category, CafeteriaHandler> =
        Pipeline::new(CafeteriaHandler, 2, Policy::DropTask);
    for o in orders(&["dog", "salad", "soup"]) {
        assert_eq!(p.submit(o), Ok(()));
    }
    p.close();
    p.drop_consumer();
    p.drain_workers();
    assert!(p.results.is_empty());
    assert_eq!(p.failures, 0);
}

#[test]
fn submit_after_close_is_rejected() {
    let mut p: Pipeline<String, Category, CafeteriaHandler> =
        Pipeline::new(CafeteriaHandler, 1, Policy::DropTask);
    assert_eq!(p.submit("salad".to_string()), Ok(()));
    p.close();
    assert_eq!(p.submit("soup".to_string()), Err(Closed));
}

#[test]
fn submit_to_dead_pool_is_rejected() {
    let mut p: Pipeline<String, Category, FailingHandler> =
        Pipeline::new(FailingHandler, 1, Policy::StopWorker);
    assert_eq!(p.submit("dog".to_string()), Ok(()));
    assert_eq!(p.worker_step(0), StepEvent::TaskReceived);
    assert_eq!(p.worker_step(0), StepEvent::HandlerFailed);
    // the only worker stopped, so nothing consumes the queue any more
    assert_eq!(p.submit("soup".to_string()), Err(Closed));
}

#[test]
fn step_events_in_order() {
    let mut p: Pipeline<String, Category, CafeteriaHandler> =
        Pipeline::new(CafeteriaHandler, 1, Policy::DropTask);
    assert_eq!(p.worker_step(0), StepEvent::WouldBlock);
    assert_eq!(p.submit("salad".to_string()), Ok(()));
    assert_eq!(p.worker_step(0), StepEvent::TaskReceived);
    assert_eq!(p.worker_step(0), StepEvent::ResultProduced);
    p.close();
    assert_eq!(p.worker_step(0), StepEvent::WorkerTerminated);
    assert_eq!(p.worker_step(0), StepEvent::AlreadyDone);
    assert_eq!(p.results, vec![Category::Salad]);
}
