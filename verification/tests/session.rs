use blocker::config::{run, Command, Config};
use blocker::deny_list::add_block;
use blocker::number::parse_minutes;
use blocker::session::{delay_for, start, step, stop, timer_delay, Action, DelayError, Event, Session};

fn config(query: &str) -> Config {
    Config { query: String::from(query), name: String::from("x"), config_path: String::new() }
}

#[test]
fn first_entry_has_no_blank_line_before_it() {
    assert_eq!(add_block("", "example.com"), "127.0.0.1\texample.com");
}

#[test]
fn entries_follow_in_call_order() {
    let one = add_block("", "example.com");
    let two = add_block(&one, "other.com");
    assert_eq!(two, "127.0.0.1\texample.com\n127.0.0.1\tother.com");
    assert_eq!(two.lines().count(), 2);
}

#[test]
fn start_appends_the_region_after_a_blank_line() {
    assert_eq!(
        start("127.0.0.1\tlocalhost\n", "127.0.0.1\texample.com"),
        "127.0.0.1\tlocalhost\n\n# start block\n127.0.0.1\texample.com\n# end block"
    );
}

#[test]
fn start_replaces_a_stale_region() {
    let stale = "127.0.0.1\tlocalhost\n\n# start block\n127.0.0.1\told.com\n# end block\n";
    assert_eq!(
        start(stale, "127.0.0.1\tnew.com"),
        "127.0.0.1\tlocalhost\n\n# start block\n127.0.0.1\tnew.com\n# end block"
    );
}

#[test]
fn stop_after_start_gives_the_hosts_text_back() {
    let hosts = "127.0.0.1\tlocalhost\n::1\tip6-localhost";
    let urls = add_block("", "example.com");
    let during = start(hosts, &urls);
    assert!(during.contains("# start block\n127.0.0.1\texample.com\n# end block"));
    assert_eq!(stop(&during), hosts);
}

#[test]
fn a_second_stop_changes_nothing() {
    let hosts = "127.0.0.1\tlocalhost";
    let during = start(hosts, "127.0.0.1\texample.com");
    let once = stop(&during);
    let twice = stop(&once);
    assert_eq!(once, hosts);
    assert_eq!(twice, hosts);
    assert!(!twice.contains("block"));
}

#[test]
fn delay_is_read_from_the_minutes() {
    assert_eq!(timer_delay("1"), Ok(chrono::Duration::minutes(1)));
    assert_eq!(timer_delay("0"), Ok(chrono::Duration::zero()));
    assert_eq!(timer_delay("-5"), Ok(chrono::Duration::minutes(-5)));
    assert_eq!(timer_delay("90"), Ok(chrono::Duration::seconds(5400)));
    assert_eq!(delay_for(Some(2)), Ok(chrono::Duration::seconds(120)));
}

#[test]
fn delay_refuses_what_is_no_number() {
    assert_eq!(timer_delay("soon"), Err(DelayError::NotANumber));
    assert_eq!(timer_delay(""), Err(DelayError::NotANumber));
    assert_eq!(timer_delay("1.5"), Err(DelayError::NotANumber));
    assert_eq!(delay_for(None), Err(DelayError::NotANumber));
}

#[test]
fn delay_refuses_minutes_out_of_range() {
    assert_eq!(timer_delay("9223372036854775807"), Err(DelayError::OutOfRange));
    assert_eq!(delay_for(Some(153_722_867_280_913)), Err(DelayError::OutOfRange));
    assert_eq!(delay_for(Some(-153_722_867_280_913)), Err(DelayError::OutOfRange));
    assert_eq!(
        delay_for(Some(153_722_867_280_912)),
        Ok(chrono::Duration::seconds(153_722_867_280_912 * 60))
    );
    assert_eq!(
        delay_for(Some(-153_722_867_280_912)),
        Ok(chrono::Duration::seconds(-153_722_867_280_912 * 60))
    );
}

#[test]
fn start_on_an_inactive_session_activates() {
    let event = Event::Start {
        hosts: String::from("a"),
        urls: String::from("127.0.0.1\tb"),
        delay: chrono::Duration::minutes(3),
    };
    match step(Session::Inactive, event) {
        (Session::Active, Action::Activate { hosts, delay }) => {
            assert_eq!(hosts, "a\n\n# start block\n127.0.0.1\tb\n# end block");
            assert_eq!(delay, chrono::Duration::minutes(3));
        }
        _ => panic!("the session did not start"),
    }
}

#[test]
fn start_on_an_active_session_is_refused() {
    let event = Event::Start {
        hosts: String::from("a"),
        urls: String::from("b"),
        delay: chrono::Duration::minutes(3),
    };
    assert!(matches!(step(Session::Active, event), (Session::Active, Action::Refuse)));
}

#[test]
fn expiry_and_stop_lift_the_block_in_either_state() {
    let during = "a\n\n# start block\n127.0.0.1\tb\n# end block";
    for session in [Session::Active, Session::Inactive] {
        match step(session, Event::Expired { hosts: String::from(during) }) {
            (Session::Inactive, Action::Deactivate { hosts }) => assert_eq!(hosts, "a"),
            _ => panic!("the block was not lifted"),
        }
        match step(session, Event::Stop { hosts: String::from(during) }) {
            (Session::Inactive, Action::Deactivate { hosts }) => assert_eq!(hosts, "a"),
            _ => panic!("the block was not lifted"),
        }
    }
}

#[test]
fn stop_then_expiry_leaves_no_region() {
    let during = start("a\nb", "127.0.0.1\tc");
    let (session, action) = step(Session::Active, Event::Stop { hosts: during });
    let after_stop = match action {
        Action::Deactivate { hosts } => hosts,
        _ => panic!("the block was not lifted"),
    };
    let (session, action) = step(session, Event::Expired { hosts: after_stop });
    assert_eq!(session, Session::Inactive);
    match action {
        Action::Deactivate { hosts } => assert_eq!(hosts, "a\nb"),
        _ => panic!("the block was not lifted"),
    }
}

#[test]
fn too_few_arguments_are_refused() {
    let args = vec![String::from("blocker"), String::from("stop")];
    assert_eq!(Config::new(&args).err(), Some("not enough arguments"));
    assert_eq!(Config::with_config_dir(&args, None).err(), Some("not enough arguments"));
    assert_eq!(Config::new(&[]).err(), Some("not enough arguments"));
}

#[test]
fn arguments_become_the_configuration() {
    let args = vec![String::from("blocker"), String::from("add"), String::from("example.com"), String::from("more")];
    let config = Config::with_config_dir(&args, Some(String::from("/home/u/.config/blocker"))).unwrap();
    assert_eq!(config.query, "add");
    assert_eq!(config.name, "example.com");
    assert_eq!(config.config_path, "/home/u/.config/blocker");
    let config = Config::with_config_dir(&args, None).unwrap();
    assert_eq!(config.config_path, "");
    let config = Config::new(&args).unwrap();
    assert_eq!(config.query, "add");
    assert_eq!(config.name, "example.com");
    assert_eq!(config.describe(), "(query: add, name: example.com)");
}

#[test]
fn verbs_are_told_apart() {
    assert_eq!(run(&config("add")), Command::Add);
    assert_eq!(run(&config("start")), Command::Start);
    assert_eq!(run(&config("stop")), Command::Stop);
    assert_eq!(run(&config("Stop")), Command::Unknown);
    assert_eq!(run(&config("")), Command::Unknown);
}

#[test]
fn numbers_are_read_as_the_standard_library_reads_them() {
    for text in [
        "0", "-0", "+0", "5", "+5", "-5", "007", "-007", "60", "1440",
        "9223372036854775807", "9223372036854775808", "-9223372036854775808",
        "-9223372036854775809", "+9223372036854775807", "99999999999999999999999999",
        "-99999999999999999999999999", "", "+", "-", "+-5", "--5", "1a", "a1", " 1", "1 ",
        "1.5", "1e3", "0x10", "\u{663}", "1\u{663}", "1_000",
    ] {
        assert_eq!(parse_minutes(text), text.parse::<i64>().ok(), "{:?}", text);
    }
    assert_eq!(parse_minutes("42"), Some(42));
    assert_eq!(parse_minutes("-9223372036854775808"), Some(i64::MIN));
    assert_eq!(parse_minutes("9223372036854775808"), None);
}

#[test]
fn a_block_over_a_stale_region_is_lifted_cleanly() {
    let stale = "127.0.0.1\tlocalhost\n\n# start block\n127.0.0.1\told.com\n# end block\n\n::1\tip6-localhost\n";
    let during = start(stale, "127.0.0.1\tnew.com\n127.0.0.1\tother.com");
    assert_eq!(
        during,
        "127.0.0.1\tlocalhost\n\n::1\tip6-localhost\n\n# start block\n127.0.0.1\tnew.com\n127.0.0.1\tother.com\n# end block"
    );
    assert_eq!(stop(&during), stop(stale));
    assert_eq!(stop(&during), "127.0.0.1\tlocalhost\n\n::1\tip6-localhost");
}

#[test]
fn an_empty_deny_list_still_gives_a_region_that_is_lifted() {
    let during = start("a", "");
    assert_eq!(during, "a\n\n# start block\n\n# end block");
    assert_eq!(stop(&during), "a");
    assert_eq!(stop(&start("", "x")), "");
}
