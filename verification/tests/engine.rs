use aircraft_aggregator::Request;

#[test]
fn fresh_engine_has_nothing() {
    let mut engine: Request<u32, u32> = Request::new(1);
    assert_eq!(engine.take_job(), None);
    assert_eq!(engine.get_next(), None);
}

#[test]
fn second_give_job_supersedes_first() {
    let mut engine: Request<u32, u32> = Request::new(1);
    engine.give_job(1);
    engine.give_job(2);
    assert_eq!(engine.take_job(), Some(2));
    assert_eq!(engine.take_job(), None);
}

#[test]
fn result_is_consumed_once() {
    let mut engine: Request<u32, u32> = Request::new(1);
    engine.give_job(5);
    let input = engine.take_job().expect("a job was pending");
    engine.publish(input * 10);
    assert_eq!(engine.get_next(), Some(50));
    assert_eq!(engine.get_next(), None);
}

#[test]
fn newer_result_supersedes_unconsumed_one() {
    let mut engine: Request<u32, u32> = Request::new(1);
    engine.publish(1);
    engine.publish(2);
    assert_eq!(engine.get_next(), Some(2));
    assert_eq!(engine.get_next(), None);
}

#[test]
fn deeper_queue_drops_oldest_when_full() {
    let mut engine: Request<u32, u32> = Request::new(2);
    engine.give_job(1);
    engine.give_job(2);
    engine.give_job(3);
    assert_eq!(engine.take_job(), Some(2));
    assert_eq!(engine.take_job(), Some(3));
    assert_eq!(engine.take_job(), None);
}

#[test]
fn run_marks_the_engine_started() {
    let mut engine: Request<u32, u32> = Request::new(1);
    engine.run();
    engine.give_job(4);
    assert_eq!(engine.take_job(), Some(4));
}
