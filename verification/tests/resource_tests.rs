use std::collections::HashMap;

use tree_of_stars::error::Error;
use tree_of_stars::resource::{pull, pull_choice, receive, serves, sink_state, store, Pool, Resource, Sink, SinkState, Source};

#[test]
fn pool_new_is_empty_with_default_caps() {
    let p = Pool::new();
    for r in Resource::all() {
        assert_eq!(p.get(r), 0);
        assert_eq!(p.cap(r), 6);
    }
}

#[test]
fn pool_set_cuts_to_cap() {
    let mut p = Pool::new();
    assert_eq!(p.set(Resource::H2, 10), Some(4));
    assert_eq!(p.get(Resource::H2), 6);
    assert_eq!(p.set(Resource::O2, 3), None);
    assert_eq!(p.get(Resource::O2), 3);
    assert_eq!(p.get(Resource::H2O), 0);
}

#[test]
fn pool_add_then_remove_restores() {
    let mut p = Pool::new();
    p.set(Resource::C, 2);
    assert_eq!(p.inc_by(Resource::C, 3), None);
    assert_eq!(p.get(Resource::C), 5);
    assert_eq!(p.dec_by(Resource::C, 3), Ok(()));
    assert_eq!(p.get(Resource::C), 2);
}

#[test]
fn pool_inc_reports_overflow() {
    let mut p = Pool::new();
    p.set(Resource::CH4, 5);
    assert_eq!(p.inc_by(Resource::CH4, 4), Some(3));
    assert_eq!(p.get(Resource::CH4), 6);
    assert_eq!(p.inc(Resource::CH4), Some(1));
}

#[test]
fn pool_dec_underflow_changes_nothing() {
    let mut p = Pool::new();
    p.set(Resource::O2, 1);
    assert_eq!(p.dec_by(Resource::O2, 2), Err(Error::PoolUnderflow));
    assert_eq!(p.get(Resource::O2), 1);
    assert_eq!(p.dec(Resource::O2), Ok(()));
    assert_eq!(p.dec(Resource::O2), Err(Error::PoolUnderflow));
}

#[test]
fn pool_from_later_entries_win() {
    let p = Pool::from(vec![(Resource::H2, 2), (Resource::O2, 1), (Resource::H2, 5)]);
    assert_eq!(p.get(Resource::H2), 5);
    assert_eq!(p.get(Resource::O2), 1);
    assert_eq!(p.get(Resource::C), 0);
    let q = Pool::from(vec![(Resource::H2O, 9)]);
    assert_eq!(q.get(Resource::H2O), 6);
}

#[test]
fn pool_from_cap_sets_caps_first() {
    let p = Pool::from_cap(vec![(Resource::H2O, 8), (Resource::C, 3)], vec![(Resource::H2O, 10), (Resource::C, 1)]);
    assert_eq!(p.cap(Resource::H2O), 10);
    assert_eq!(p.get(Resource::H2O), 8);
    assert_eq!(p.cap(Resource::C), 1);
    assert_eq!(p.get(Resource::C), 1);
    assert_eq!(p.cap(Resource::O2), 6);
}

#[test]
fn pool_set_cap_keeps_count() {
    let mut p = Pool::new();
    p.set(Resource::H2, 5);
    p.set_cap(Resource::H2, 2);
    assert_eq!(p.cap(Resource::H2), 2);
    assert_eq!(p.get(Resource::H2), 5);
}

#[test]
fn pool_iter_in_fixed_order() {
    let p = Pool::from(vec![(Resource::CO2, 4), (Resource::H2, 1)]);
    let v = p.iter();
    assert_eq!(
        v,
        vec![
            (Resource::H2, 1),
            (Resource::O2, 0),
            (Resource::H2O, 0),
            (Resource::C, 0),
            (Resource::CO2, 4),
            (Resource::CH4, 0),
        ]
    );
}

#[test]
fn pool_is_empty_means_every_count_positive() {
    let mut p = Pool::new();
    assert!(!p.is_empty());
    for r in Resource::all() {
        p.set(r, 1);
    }
    assert!(p.is_empty());
}

#[test]
fn pool_str_writes_counts_and_names() {
    let p = Pool::from(vec![(Resource::H2, 2), (Resource::O2, 1)]);
    assert_eq!(p.str(), "2H2+O2");
    assert_eq!(Pool::new().str(), "");
    let mut q = Pool::new();
    q.set_cap(Resource::C, 20);
    q.set(Resource::C, 12);
    q.set(Resource::CH4, 1);
    assert_eq!(q.str(), "12C+CH4");
}

#[test]
fn resource_order_and_names() {
    let all = Resource::all();
    assert_eq!(all.len(), 6);
    for (i, r) in all.iter().enumerate() {
        assert_eq!(r.index(), i);
        assert_eq!(Resource::from_index(i), *r);
    }
    assert_eq!(Resource::H2O.name(), "H2O");
    assert_eq!(Resource::CO2.name(), "CO2");
}

fn sink_wanting(entries: Vec<(Resource, usize)>) -> Sink {
    let mut s = Sink::new();
    s.want = Pool::from(entries);
    s
}

#[test]
fn pull_choice_takes_what_is_lacked_most() {
    let sink = sink_wanting(vec![(Resource::H2, 2), (Resource::O2, 4)]);
    let has = Pool::from(vec![(Resource::H2, 3), (Resource::O2, 1)]);
    assert_eq!(pull_choice(&sink, &has), Some(Resource::O2));
    let has2 = Pool::from(vec![(Resource::H2, 3)]);
    assert_eq!(pull_choice(&sink, &has2), Some(Resource::H2));
    let has3 = Pool::from(vec![(Resource::C, 3)]);
    assert_eq!(pull_choice(&sink, &has3), None);
}

#[test]
fn pull_choice_tie_goes_to_earliest() {
    let sink = sink_wanting(vec![(Resource::O2, 2), (Resource::C, 2)]);
    let has = Pool::from(vec![(Resource::O2, 1), (Resource::C, 1)]);
    assert_eq!(pull_choice(&sink, &has), Some(Resource::O2));
}

#[test]
fn serves_when_something_lacked_is_held() {
    let mut sink = sink_wanting(vec![(Resource::H2, 2)]);
    let has = Pool::from(vec![(Resource::H2, 1)]);
    assert!(serves(&has, &sink));
    sink.in_transit.set(Resource::H2, 2);
    assert!(!serves(&has, &sink));
}

#[test]
fn pull_moves_one_unit_and_stamps() {
    let mut source = Source::new(Pool::from(vec![(Resource::H2, 3)]));
    let mut sink = sink_wanting(vec![(Resource::H2, 2)]);
    let r = pull(&mut source, &mut sink, 7, 1_000);
    assert_eq!(r, Some(Resource::H2));
    assert_eq!(source.has.get(Resource::H2), 2);
    assert_eq!(sink.in_transit.get(Resource::H2), 1);
    assert_eq!(source.last_send(7), Some(1_000));
    // What the source holds plus what is on its way is unchanged.
    assert_eq!(source.has.get(Resource::H2) + sink.in_transit.get(Resource::H2), 3);
}

#[test]
fn pull_with_nothing_lacked_changes_nothing() {
    let mut source = Source::new(Pool::from(vec![(Resource::H2, 3)]));
    let mut sink = sink_wanting(vec![(Resource::O2, 2)]);
    assert_eq!(pull(&mut source, &mut sink, 7, 5), None);
    assert_eq!(source.has.get(Resource::H2), 3);
    assert_eq!(source.last_send(7), None);
    assert_eq!(sink.in_transit.get(Resource::O2), 0);
}

#[test]
fn cooldown_after_send() {
    let mut source = Source::new(Pool::from(vec![(Resource::H2, 3)]));
    let mut sink = sink_wanting(vec![(Resource::H2, 2)]);
    pull(&mut source, &mut sink, 9, 1_000_000_000);
    assert_eq!(source.cooldown(9, 1_100_000_000), (true, 400_000_000));
    assert_eq!(source.cooldown(9, 1_500_000_000), (false, 0));
    assert_eq!(source.cooldown(9, 900_000_000), (true, 500_000_000));
    assert_eq!(source.cooldown(8, 1_100_000_000), (false, 0));
}

#[test]
fn receive_moves_one_unit() {
    let mut sink = sink_wanting(vec![(Resource::C, 3)]);
    sink.in_transit.set(Resource::C, 2);
    assert_eq!(receive(&mut sink, Resource::C), Ok(()));
    assert_eq!(sink.in_transit.get(Resource::C), 1);
    assert_eq!(sink.has.get(Resource::C), 1);
    assert_eq!(receive(&mut sink, Resource::O2), Err(Error::PoolUnderflow));
    assert_eq!(sink.has.get(Resource::O2), 0);
}

#[test]
fn store_takes_intake_and_asks_for_room() {
    let mut stock = Pool::new();
    for r in Resource::all() {
        stock.set_cap(r, 0);
    }
    stock.set_cap(Resource::H2O, 6);
    stock.set(Resource::H2O, 1);
    let mut sink = Sink::new();
    sink.has.set(Resource::H2O, 2);
    store(&mut stock, &mut sink);
    assert_eq!(stock.get(Resource::H2O), 3);
    assert_eq!(sink.has.get(Resource::H2O), 0);
    assert_eq!(sink.want.get(Resource::H2O), 3);
    assert_eq!(sink.want.get(Resource::O2), 0);
}

#[test]
fn source_new_has_sent_nothing() {
    let s = Source::new(Pool::new());
    assert_eq!(s.last_send(1), None);
    let _unused: HashMap<u64, u64> = HashMap::new();
}

#[test]
fn pool_remove_then_add_restores() {
    let mut p = Pool::new();
    p.set(Resource::H2O, 4);
    assert_eq!(p.dec_by(Resource::H2O, 3), Ok(()));
    assert_eq!(p.inc_by(Resource::H2O, 3), None);
    assert_eq!(p.get(Resource::H2O), 4);
    assert_eq!(p.cap(Resource::H2O), 6);
}

#[test]
fn satisfied_sink_pulls_nothing() {
    let mut source = Source::new(Pool::from(vec![(Resource::H2, 3), (Resource::O2, 3)]));
    let mut sink = sink_wanting(vec![(Resource::H2, 2), (Resource::O2, 1)]);
    sink.has.set(Resource::H2, 1);
    sink.in_transit.set(Resource::H2, 1);
    sink.in_transit.set(Resource::O2, 1);
    assert_eq!(pull_choice(&sink, &source.has), None);
    assert_eq!(pull(&mut source, &mut sink, 3, 0), None);
    assert_eq!(source.has.get(Resource::H2), 3);
}

#[test]
fn sink_state_green_yellow_red() {
    let mut s = Sink::new();
    assert_eq!(sink_state(&s), SinkState::Green);
    s.want.inc_by(Resource::H2, 2);
    assert_eq!(sink_state(&s), SinkState::Red);
    s.in_transit.inc_by(Resource::H2, 1);
    assert_eq!(sink_state(&s), SinkState::Red);
    s.has.inc_by(Resource::H2, 1);
    assert_eq!(sink_state(&s), SinkState::Yellow);
    s.want.inc_by(Resource::C, 1);
    assert_eq!(sink_state(&s), SinkState::Red);
    s.has.inc_by(Resource::C, 1);
    s.in_transit.dec_by(Resource::H2, 1);
    s.has.inc_by(Resource::H2, 1);
    assert_eq!(sink_state(&s), SinkState::Green);
}
