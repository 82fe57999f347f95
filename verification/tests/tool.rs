use fart::num::{clamp, map_range, max, min, NoMorePartial};
use fart::tool::{Color, Config, New, Output, Run, Serve, Watch, Watcher};

#[test]
fn min_max_clamp() {
    assert_eq!(min(0, 1), 0);
    assert_eq!(max(0, 1), 1);
    assert_eq!(min(5, 5), 5);
    assert_eq!(max(-3, -7), -3);

    assert_eq!(clamp(5, 0, 10), 5);
    assert_eq!(clamp(11, 0, 10), 10);
    assert_eq!(clamp(-5, 0, 10), 0);
}

#[test]
fn map_range_scales() {
    assert_eq!(map_range(5, 0, 10, 0, 100), 50);
    assert_eq!(map_range(3, 2, 5, 0, 3), 1);
    assert_eq!(map_range(10, 0, 10, 0, 100), 100);
    assert_eq!(map_range(0, 0, 10, -100, 100), -100);
}

#[test]
fn no_more_partial_orders() {
    let a = NoMorePartial((1i64, 2i64));
    let b = NoMorePartial((1i64, 3i64));
    assert!(a < b);
    assert!(a == a.clone());
    assert_eq!(a.0, (1, 2));
}

#[test]
fn run_options() {
    let r = Run::new("some/project".to_string(), vec!["--release".to_string()]);
    assert_eq!(r.project, "some/project");
    assert_eq!(r.extra, vec!["--release".to_string()]);
}

#[test]
fn watcher_builder() {
    let mut w = Watcher::new("art".to_string());
    assert_eq!(w.project, "art");
    assert!(w.extra.is_empty());
    assert_eq!(w.output, Output::Inherit);

    w.extra(vec!["--fast".to_string()]);
    assert_eq!(w.extra, vec!["--fast".to_string()]);
    assert_eq!(w.project, "art");

    w.on_output();
    assert_eq!(w.output, Output::Pipe);
    assert_eq!(w.extra, vec!["--fast".to_string()]);
}

#[test]
fn subcommand_options() {
    let n = New::new("my-project".to_string(), "some/template.git".to_string());
    assert_eq!(n.name, "my-project");
    assert_eq!(n.template, "some/template.git");

    let mut w = Watch::new(".".to_string(), vec![]);
    w.set_extra(vec!["--x".to_string()]);
    assert_eq!(w.project, ".");
    assert_eq!(w.extra, vec!["--x".to_string()]);

    let mut s = Serve::new(".".to_string(), 9090, vec![]);
    assert_eq!(s.port, 9090);
    s.set_extra(vec!["--y".to_string()]);
    assert_eq!(s.extra, vec!["--y".to_string()]);

    let c = Config::new("images/latest.svg".to_string());
    assert_eq!(c.file_name, "images/latest.svg");

    let colored = Color::new(7i64, "red".to_string());
    assert_eq!(colored.inner, 7);
    assert_eq!(colored.color, "red");
}
