use control_daemon::config::{host_port, Config, ConfigError};
use control_daemon::retry::{Retry, RetryStep, INITIAL_DELAY_MS, MAX_DELAY_MS};

fn s(x: &str) -> Option<String> {
    Some(x.to_string())
}

#[test]
fn config_defaults() {
    let c = Config::from_vars(None, None, s("secret")).unwrap();
    assert_eq!(c.rcon_host, "127.0.0.1");
    assert_eq!(c.rcon_port, 27015);
    assert_eq!(c.rcon_password, "secret");
    assert_eq!(c.rcon_addr(), "127.0.0.1:27015");
}

#[test]
fn config_given_values() {
    let c = Config::from_vars(s("game.example"), s("+80"), s("pw")).unwrap();
    assert_eq!(c.rcon_addr(), "game.example:80");
    let c = Config::from_vars(s("h"), s("65535"), s("pw")).unwrap();
    assert_eq!(c.rcon_port, 65535);
    let c = Config::from_vars(s("h"), s("0"), s("")).unwrap();
    assert_eq!(c.rcon_addr(), "h:0");
}

#[test]
fn config_errors() {
    assert_eq!(Config::from_vars(s("h"), s("65536"), s("pw")).unwrap_err(), ConfigError::InvalidPort);
    assert_eq!(Config::from_vars(s("h"), s(""), s("pw")).unwrap_err(), ConfigError::InvalidPort);
    assert_eq!(Config::from_vars(s("h"), s(" 80"), s("pw")).unwrap_err(), ConfigError::InvalidPort);
    assert_eq!(Config::from_vars(s("h"), s("abc"), None).unwrap_err(), ConfigError::InvalidPort);
    assert_eq!(Config::from_vars(None, None, None).unwrap_err(), ConfigError::MissingPassword);
}

#[test]
fn address_format() {
    assert_eq!(host_port("example.com", 0), "example.com:0");
    assert_eq!(host_port("", 1234), ":1234");
    assert_eq!(host_port("::1", 9), "::1:9");
}

#[test]
fn printed_port_reads_back_example() {
    for port in [0u16, 7, 10, 999, 27015, 65535] {
        let c = Config::from_vars(s("h"), None, s("pw")).unwrap();
        let c = Config { rcon_port: port, ..c };
        let addr = c.rcon_addr();
        let text = addr.rsplit(':').next().unwrap().to_string();
        let back = Config::from_vars(s("h"), Some(text), s("pw")).unwrap();
        assert_eq!(back.rcon_port, port);
    }
}

#[test]
fn retry_delays_double_up_to_five_seconds() {
    let mut r = Retry::new(10);
    let mut waits = Vec::new();
    loop {
        match r.step::<String, String>(Err("no".to_string())) {
            RetryStep::RetryAfter(ms) => waits.push(ms),
            RetryStep::Return(res) => {
                assert_eq!(res, Err("no".to_string()));
                break;
            },
        }
    }
    assert_eq!(waits, vec![200, 400, 800, 1600, 3200, 5000, 5000, 5000, 5000]);
    assert_eq!(INITIAL_DELAY_MS, 200);
    assert_eq!(MAX_DELAY_MS, 5000);
}

#[test]
fn retry_tries_exactly_attempts_times() {
    for attempts in 1..6usize {
        let mut r = Retry::new(attempts);
        let mut tries = 1;
        while let RetryStep::RetryAfter(_) = r.step::<u8, ()>(Err(())) {
            tries += 1;
        }
        assert_eq!(tries, attempts);
    }
}

#[test]
fn retry_stops_at_success() {
    let mut r = Retry::new(5);
    assert!(matches!(r.step::<String, String>(Err("a".to_string())), RetryStep::RetryAfter(200)));
    match r.step::<String, String>(Ok("status".to_string())) {
        RetryStep::Return(Ok(v)) => assert_eq!(v, "status"),
        _ => panic!("expected the output"),
    }
    assert_eq!(r.attempt(), 2);
    assert_eq!(r.attempts(), 5);
    assert_eq!(r.delay_ms(), 400);
}
