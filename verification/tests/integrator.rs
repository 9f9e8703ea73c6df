use rt::integrator::{advance, begin, trace, Encounter, Ending, Step};

#[test]
fn begin_with_no_bounce_left_is_over() {
    assert_eq!(begin(0), Step::Done(Ending::Exhausted));
    assert_eq!(begin(-1), Step::Done(Ending::Exhausted));
    assert_eq!(begin(i32::MIN), Step::Done(Ending::Exhausted));
}

#[test]
fn begin_with_bounces_left_queries() {
    assert_eq!(begin(1), Step::Query(1));
    assert_eq!(begin(50), Step::Query(50));
    assert_eq!(begin(i32::MAX), Step::Query(i32::MAX));
}

#[test]
fn a_miss_ends_with_the_background() {
    assert_eq!(advance(50, Encounter::Miss), Step::Done(Ending::Escaped));
    assert_eq!(advance(1, Encounter::Miss), Step::Done(Ending::Escaped));
}

#[test]
fn an_absorption_ends_with_the_emission() {
    assert_eq!(advance(50, Encounter::Absorbed), Step::Done(Ending::Absorbed));
    assert_eq!(advance(1, Encounter::Absorbed), Step::Done(Ending::Absorbed));
}

#[test]
fn a_scattered_ray_uses_up_a_bounce() {
    assert_eq!(advance(50, Encounter::Scattered), Step::Query(49));
    assert_eq!(advance(2, Encounter::Scattered), Step::Query(1));
    assert_eq!(advance(1, Encounter::Scattered), Step::Done(Ending::Exhausted));
}

#[test]
fn advance_without_a_bounce_left_stays_over() {
    assert_eq!(advance(0, Encounter::Scattered), Step::Done(Ending::Exhausted));
    assert_eq!(advance(0, Encounter::Miss), Step::Done(Ending::Exhausted));
    assert_eq!(advance(i32::MIN, Encounter::Scattered), Step::Done(Ending::Exhausted));
}

#[test]
fn trace_stops_at_the_first_ending() {
    let met = vec![Encounter::Scattered, Encounter::Scattered, Encounter::Miss, Encounter::Scattered];
    assert_eq!(trace(50, &met), (3, Some(Ending::Escaped)));
    let met = vec![Encounter::Absorbed, Encounter::Miss];
    assert_eq!(trace(50, &met), (1, Some(Ending::Absorbed)));
}

#[test]
fn trace_never_queries_more_than_the_depth() {
    let met = vec![Encounter::Scattered; 10];
    assert_eq!(trace(3, &met), (3, Some(Ending::Exhausted)));
    assert_eq!(trace(10, &met), (10, Some(Ending::Exhausted)));
    assert_eq!(trace(0, &met), (0, Some(Ending::Exhausted)));
    assert_eq!(trace(-4, &met), (0, Some(Ending::Exhausted)));
}

#[test]
fn trace_runs_out_of_encounters() {
    let met = vec![Encounter::Scattered; 10];
    assert_eq!(trace(11, &met), (10, None));
    assert_eq!(trace(1, &vec![]), (0, None));
    assert_eq!(trace(0, &vec![]), (0, Some(Ending::Exhausted)));
}
