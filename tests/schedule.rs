use hyprshade::config::{ConfigDocument, Shader};
use hyprshade::schedule::{Schedule, ScheduleTable};
use hyprshade::template::{TemplateData, TemplateDataMap};
use hyprshade::time::{TimeOfDay, TimeRange};

fn t(h: u32, m: u32) -> TimeOfDay {
    TimeOfDay::from_hms(h, m, 0).unwrap()
}

fn shader(name: &str, start: Option<TimeOfDay>, end: Option<TimeOfDay>, default: bool) -> Shader {
    Shader {
        name: name.to_string(),
        start_time: start,
        end_time: end,
        default,
        config: TemplateDataMap::new(),
    }
}

#[test]
fn wraparound_range_contains() {
    let r = TimeRange::new(t(23, 0), t(1, 0));
    assert!(!r.contains(&t(22, 59)));
    assert!(r.contains(&t(23, 0)));
    assert!(r.contains(&t(0, 30)));
    assert!(!r.contains(&t(1, 0)));
}

#[test]
fn ordinary_range_is_half_open() {
    let r = TimeRange::new(t(8, 0), t(17, 0));
    assert!(!r.contains(&t(7, 59)));
    assert!(r.contains(&t(8, 0)));
    assert!(r.contains(&t(16, 59)));
    assert!(!r.contains(&t(17, 0)));
}

#[test]
fn zero_width_range_is_whole_day() {
    let r = TimeRange::new(t(6, 0), t(6, 0));
    assert!(r.contains(&t(0, 0)));
    assert!(r.contains(&t(6, 0)));
    assert!(r.contains(&t(23, 59)));
}

#[test]
fn time_of_day_bounds() {
    assert!(TimeOfDay::from_hms(24, 0, 0).is_none());
    assert!(TimeOfDay::from_hms(23, 60, 0).is_none());
    assert!(TimeOfDay::from_hms(23, 59, 60).is_none());
    let x = TimeOfDay::from_hms(1, 2, 3).unwrap();
    assert_eq!(x.num_seconds_from_midnight(), 3723);
    assert_eq!(x.nanosecond(), 0);
    assert!(TimeOfDay::from_num_seconds_from_midnight(86400, 0).is_none());
    assert!(TimeOfDay::from_num_seconds_from_midnight(86399, 1_999_999_999).is_some());
    assert!(t(0, 0).is_before(&t(0, 1)));
    assert!(!t(0, 1).is_before(&t(0, 1)));
}

#[test]
fn table_orders_by_start_and_chains_ends() {
    let shaders = vec![
        shader("night", Some(t(20, 0)), None, false),
        shader("none", None, None, false),
        shader("morning", Some(t(6, 0)), None, false),
        shader("noon", Some(t(12, 0)), Some(t(13, 0)), false),
    ];
    let table = ScheduleTable::from_shaders(&shaders);
    assert_eq!(table.get(&t(6, 0)), Some(2));
    assert_eq!(table.get(&t(11, 59)), Some(2));
    assert_eq!(table.get(&t(12, 30)), Some(3));
    assert_eq!(table.get(&t(13, 30)), None);
    assert_eq!(table.get(&t(20, 0)), Some(0));
    assert_eq!(table.get(&t(2, 0)), Some(0));
    assert_eq!(table.get(&t(5, 59)), Some(0));
}

#[test]
fn full_coverage_without_end_times() {
    let shaders = vec![
        shader("a", Some(t(9, 0)), None, false),
        shader("b", Some(t(18, 0)), None, false),
    ];
    let table = ScheduleTable::from_shaders(&shaders);
    for h in 0..24 {
        for m in [0, 29, 59] {
            let found = table.get(&t(h, m));
            assert!(found.is_some());
            let expected = if (9..18).contains(&h) { 0 } else { 1 };
            assert_eq!(found, Some(expected));
        }
    }
}

#[test]
fn single_entry_covers_whole_day() {
    let shaders = vec![shader("only", Some(t(12, 0)), None, false)];
    let table = ScheduleTable::from_shaders(&shaders);
    assert_eq!(table.get(&t(0, 0)), Some(0));
    assert_eq!(table.get(&t(12, 0)), Some(0));
    assert_eq!(table.get(&t(23, 59)), Some(0));
}

#[test]
fn empty_schedule_finds_nothing() {
    let shaders = vec![shader("a", None, None, false), shader("b", None, Some(t(3, 0)), true)];
    let table = ScheduleTable::from_shaders(&shaders);
    for h in 0..24 {
        assert_eq!(table.get(&t(h, 0)), None);
    }
    let empty: Vec<Shader> = Vec::new();
    assert_eq!(ScheduleTable::from_shaders(&empty).get(&t(5, 0)), None);
}

#[test]
fn equal_start_times_keep_written_order() {
    let shaders = vec![
        shader("first", Some(t(10, 0)), Some(t(11, 0)), false),
        shader("second", Some(t(10, 0)), Some(t(12, 0)), false),
    ];
    let table = ScheduleTable::from_shaders(&shaders);
    assert_eq!(table.get(&t(10, 30)), Some(0));
    assert_eq!(table.get(&t(11, 30)), Some(1));
    assert_eq!(table.get(&t(12, 30)), None);
}

#[test]
fn default_fallback() {
    let doc = ConfigDocument {
        shader: vec![
            shader("day", Some(t(8, 0)), Some(t(18, 0)), false),
            shader("fallback", None, None, true),
            shader("other", None, None, true),
        ],
    };
    let schedule = Schedule::with_config(&doc);
    assert_eq!(schedule.scheduled_shader(&t(9, 0)).unwrap().name, "day");
    assert_eq!(schedule.scheduled_shader(&t(19, 0)).unwrap().name, "fallback");
    assert_eq!(doc.default_shader().unwrap().name, "fallback");

    let none = ConfigDocument {
        shader: vec![shader("day", Some(t(8, 0)), Some(t(18, 0)), false)],
    };
    let schedule = Schedule::with_config(&none);
    assert!(schedule.scheduled_shader(&t(19, 0)).is_none());
    assert!(none.default_shader().is_none());
}

#[test]
fn lookup_by_name() {
    let doc = ConfigDocument {
        shader: vec![
            shader("a", None, None, false),
            shader("b", Some(t(1, 0)), None, false),
        ],
    };
    assert_eq!(doc.shader("b").unwrap().start_time, Some(t(1, 0)));
    assert!(doc.shader("c").is_none());
    assert_eq!(doc.all_shaders().len(), 2);
}

#[test]
fn bisection_agrees_with_linear_lookup() {
    let shaders = vec![
        shader("c", Some(t(21, 0)), None, false),
        shader("a", Some(t(6, 30)), None, false),
        shader("x", None, None, true),
        shader("b", Some(t(13, 0)), None, false),
    ];
    let table = ScheduleTable::from_shaders(&shaders);
    for h in 0..24 {
        for m in [0, 15, 30, 45, 59] {
            let linear = table.get(&t(h, m));
            assert!(linear.is_some());
            assert_eq!(table.get_by_bisection(&t(h, m)), linear);
        }
    }
    assert_eq!(table.get_by_bisection(&t(6, 29)), Some(0));
    assert_eq!(table.get_by_bisection(&t(6, 30)), Some(1));
    assert_eq!(table.get_by_bisection(&t(12, 59)), Some(1));
    assert_eq!(table.get_by_bisection(&t(13, 0)), Some(3));
    assert_eq!(table.get_by_bisection(&t(23, 0)), Some(0));
    let empty: Vec<Shader> = Vec::new();
    assert_eq!(ScheduleTable::from_shaders(&empty).get_by_bisection(&t(1, 0)), None);
}

#[test]
fn configured_parameters_by_name() {
    let mut config = TemplateDataMap::new();
    config.insert("strength".to_string(), TemplateData::Float("0.5".to_string()));
    let mut first = shader("vibrance", None, None, false);
    first.config = config;
    let doc = ConfigDocument {
        shader: vec![first, shader("vibrance", None, None, true)],
    };
    let data = doc.data("vibrance").unwrap();
    assert_eq!(data.len(), 1);
    assert!(matches!(data.get("strength"), Some(TemplateData::Float(s)) if s == "0.5"));
    assert!(doc.data("missing").is_none());
    let copy = data.clone();
    assert_eq!(copy.len(), 1);
}
