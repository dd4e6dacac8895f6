use wiggles::event_loop::{next_event, nanoseconds, ns_until, Event, LastEvents, Settings, EventLoop};

/// Nanoseconds in this many milliseconds.
fn millis(milliseconds: u64) -> u64 {
    milliseconds * 1_000_000
}

#[test]
fn test_event_loop_no_autosave() {
    let mut now: u64 = 5_000_000_000;
    let mut last = LastEvents::new(now);
    let update_interval = millis(10);
    let settings = Settings {
        update_interval: update_interval,
        render_interval: millis(13),
        autosave_interval: None,
    };

    let mut assert_event = |time: u64, event: Event| {
        assert_eq!(event, next_event(time, &settings, &mut last));
    };

    let update_event = Event::Update(update_interval);

    assert_event(now, Event::Idle(millis(10)));
    now += millis(5);
    assert_event(now, Event::Idle(millis(5)));
    now += millis(5);
    assert_event(now, update_event);
    // If we run again immediately, we should be idle until render at 13.
    assert_event(now, Event::Idle(millis(3)));
    now += millis(3);
    assert_event(now, Event::Render);
    assert_event(now, Event::Idle(millis(7)));
    // If we wait too long, we should still run the next pending event.
    now += millis(10);
    assert_event(now, update_event);
    assert_event(now, Event::Idle(millis(3)));
    // Get through the next render, then wait long enough that we should batch updates.
    now += millis(3);
    assert_event(now, Event::Render);
    // Delay more than 2 update cycles, make sure we get a fat update.
    now += millis(35);
    assert_event(now, Event::Update(update_interval * 3));
    // We should get a render next, which we're late on as well.
    assert_event(now, Event::Render);
    // We're still behind on updates, so we should get another.
    assert_event(now, update_event);
    assert_event(now, Event::Idle(millis(9)));
}

#[test]
fn test_event_loop_with_autosave() {
    let mut now: u64 = 5_000_000_000;
    let mut last = LastEvents::new(now);
    let update_interval = millis(10);
    let settings = Settings {
        update_interval: update_interval,
        render_interval: millis(13),
        autosave_interval: Some(millis(17)),
    };

    let mut assert_event = |time: u64, event: Event| {
        assert_eq!(event, next_event(time, &settings, &mut last));
    };

    let update_event = Event::Update(update_interval);

    assert_event(now, Event::Idle(millis(10)));
    now += millis(10);
    assert_event(now, update_event);
    now += millis(17);
    assert_event(now, Event::Render);
    assert_event(now, Event::Autosave);
    assert_event(now, update_event);
    assert_event(now, Event::Idle(millis(3)));
}

#[test]
fn nanoseconds_counts_seconds_and_nanos() {
    assert_eq!(nanoseconds(2, 5), 2_000_000_005);
    assert_eq!(nanoseconds(0, 0), 0);
}

#[test]
fn ns_until_is_negative_when_overdue() {
    assert_eq!(ns_until(100, 0, 30), -70);
    assert_eq!(ns_until(10, 0, 30), 20);
    assert_eq!(ns_until(30, 0, 30), 0);
}

#[test]
fn default_settings_update_at_100_fps() {
    let s = Settings::default();
    assert_eq!(s.update_interval, millis(10));
    assert_eq!(s.render_interval, millis(20));
    assert_eq!(s.autosave_interval, None);
}

#[test]
fn batched_update_covers_all_but_one_due_step() {
    // Five steps overdue: the update covers four of them.
    let settings = Settings { update_interval: 10, render_interval: 1000, autosave_interval: None };
    let mut last = LastEvents::new(0);
    assert_eq!(next_event(50, &settings, &mut last), Event::Update(40));
    assert_eq!(last.update, 40);
    // Two steps due: a plain update.
    let mut last = LastEvents::new(0);
    assert_eq!(next_event(25, &settings, &mut last), Event::Update(10));
    assert_eq!(last.update, 10);
}

#[test]
fn new_event_loop_renders_first() {
    let mut ev = EventLoop::new();
    assert_eq!(ev.next(), Event::Render);
    ev.reset();
    match ev.next() {
        Event::Idle(_) | Event::Update(_) | Event::Render => {}
        Event::Autosave => panic!("autosave is off by default"),
    }
}

#[test]
fn long_idle_is_not_cut_short() {
    let five_secs = 5_000_000_000;
    let settings = Settings { update_interval: five_secs, render_interval: five_secs, autosave_interval: None };
    let mut last = LastEvents::new(0);
    assert_eq!(next_event(0, &settings, &mut last), Event::Idle(five_secs));
}

#[test]
fn idle_after_every_event_lasts_the_shortest_interval() {
    let settings = Settings { update_interval: 10, render_interval: 13, autosave_interval: Some(7) };
    let mut last = LastEvents::new(100);
    assert_eq!(next_event(100, &settings, &mut last), Event::Idle(7));
    assert_eq!(last, LastEvents::new(100));
}
