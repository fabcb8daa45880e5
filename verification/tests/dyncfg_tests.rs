use read_holds::dyncfg::{
    Config, ConfigSet, ConfigType, ConfigUpdates, ConfigVal, ProtoConfigVal, ProtoDuration,
    ProtoOptionU64, ProtoVal, TryFromProtoError,
};
use read_holds::named_list::name_less;
use std::time::Duration;

fn bool_config() -> Config<bool> {
    Config::new("bool", true, "")
}

fn usize_config() -> Config<usize> {
    Config::new("usize", 1, "")
}

fn opt_usize_config() -> Config<Option<usize>> {
    Config::new("opt_usize", Some(2), "")
}

fn string_config() -> Config<String> {
    Config::new("string", "a", "")
}

fn duration_config() -> Config<Duration> {
    Config::new("duration", Duration::from_nanos(3), "")
}

#[test]
fn all_types() {
    let mut configs = ConfigSet::default()
        .add(&bool_config())
        .add(&usize_config())
        .add(&opt_usize_config())
        .add(&string_config())
        .add(&duration_config());
    assert_eq!(bool_config().get(&configs), true);
    assert_eq!(usize_config().get(&configs), 1);
    assert_eq!(opt_usize_config().get(&configs), Some(2));
    assert_eq!(string_config().get(&configs), "a");
    assert_eq!(duration_config().get(&configs), Duration::from_nanos(3));

    bool_config().set(&mut configs, false);
    usize_config().set(&mut configs, 2);
    opt_usize_config().set(&mut configs, None);
    string_config().set(&mut configs, "b".to_owned());
    duration_config().set(&mut configs, Duration::from_nanos(4));
    assert_eq!(bool_config().get(&configs), false);
    assert_eq!(usize_config().get(&configs), 2);
    assert_eq!(opt_usize_config().get(&configs), None);
    assert_eq!(string_config().get(&configs), "b");
    assert_eq!(duration_config().get(&configs), Duration::from_nanos(4));
}

#[test]
fn config_set() {
    let mut c0 = ConfigSet::default().add(&usize_config());
    assert_eq!(usize_config().get(&c0), 1);
    usize_config().set(&mut c0, 2);
    assert_eq!(usize_config().get(&c0), 2);

    // Each set is independent, even where they hold the same configs.
    let mut c1 = ConfigSet::default().add(&usize_config());
    assert_eq!(usize_config().get(&c1), 1);
    usize_config().set(&mut c1, 3);
    assert_eq!(usize_config().get(&c1), 3);
    assert_eq!(usize_config().get(&c0), 2);

    // Values can be copied from one to the other.
    let mut updates = ConfigUpdates::default();
    for e in c0.entries() {
        updates.add(e);
    }
    assert_eq!(usize_config().get(&c1), 3);
    updates.apply(&mut c1);
    assert_eq!(usize_config().get(&c1), 2);
}

#[test]
fn config_updates_extend() {
    // Two sets of updates with overlapping, but not identical, configs.
    let mut u1 = {
        let c = ConfigSet::default().add(&usize_config()).add(&string_config());
        let mut x = ConfigUpdates::default();
        for e in c.entries() {
            x.add(e);
        }
        x
    };
    let u2 = {
        let mut c = ConfigSet::default().add(&usize_config()).add(&duration_config());
        usize_config().set(&mut c, 2);
        let mut x = ConfigUpdates::default();
        for e in c.entries() {
            x.add(e);
        }
        x
    };
    assert_eq!(u1.len(), 2);
    assert_eq!(u2.len(), 2);
    u1.extend(u2);
    assert_eq!(u1.len(), 3);

    // The later value was kept for the config that both have.
    let mut c = ConfigSet::default().add(&usize_config());
    u1.apply(&mut c);
    assert_eq!(usize_config().get(&c), 2);
}

#[test]
fn config_handle_keeps_what_it_was_made_with() {
    let config: Config<u32> = Config::new("limit", 7, "an upper bound");
    assert_eq!(config.name(), "limit");
    assert_eq!(config.desc(), "an upper bound");
    assert_eq!(*config.default(), 7);
    let set = ConfigSet::new().add(&config);
    assert_eq!(config.get(&set), 7);
    assert_eq!(*config.shared(&set), 7);
    assert_eq!(config.get_from_shared(config.shared(&set)), 7);
}

#[test]
fn entries_come_with_name_description_default_and_value() {
    let config: Config<String> = Config::new("greeting", "hello", "what to say");
    let mut set = ConfigSet::new().add(&bool_config()).add(&config);
    config.set(&mut set, "goodbye".to_owned());
    let entries = set.entries();
    assert_eq!(entries.len(), 2);
    assert_eq!(entries[0].name(), "bool");
    assert_eq!(entries[1].name(), "greeting");
    assert_eq!(entries[1].desc(), "what to say");
    assert_eq!(*entries[1].default(), ConfigVal::String("hello".to_owned()));
    assert_eq!(*entries[1].val(), ConfigVal::String("goodbye".to_owned()));
    assert_eq!(entries[1].val().clone(), ConfigVal::String("goodbye".to_owned()));
}

#[test]
fn config_type_conversions() {
    assert_eq!(bool::to_val(true), ConfigVal::Bool(true));
    assert_eq!(*bool::from_val(&ConfigVal::Bool(false)), false);
    assert_eq!(u32::to_val(4), ConfigVal::U32(4));
    assert_eq!(*u32::from_val(&ConfigVal::U32(4)), 4);
    assert_eq!(usize::to_val(5), ConfigVal::Usize(5));
    assert_eq!(<Option<usize>>::to_val(Some(6)), ConfigVal::OptUsize(Some(6)));
    assert_eq!(String::from_default(&"abc"), "abc");
    assert_eq!(String::get(&"abc".to_owned()), "abc");
    let mut shared = 1usize;
    usize::set(&mut shared, 9);
    assert_eq!(usize::get(&shared), 9);
    assert_eq!(Duration::to_val(Duration::from_secs(2)), ConfigVal::Duration(Duration::from_secs(2)));
}

#[test]
fn values_travel_and_come_back() {
    let values = vec![
        ConfigVal::Bool(true),
        ConfigVal::U32(9),
        ConfigVal::Usize(10),
        ConfigVal::OptUsize(None),
        ConfigVal::OptUsize(Some(11)),
        ConfigVal::String("twelve".to_owned()),
        ConfigVal::Duration(Duration::new(13, 14)),
    ];
    for v in values {
        assert_eq!(ConfigVal::from_proto(&v.into_proto()), Ok(v));
    }
    assert_eq!(
        ConfigVal::Duration(Duration::new(13, 1_000_000_014)).into_proto(),
        ProtoConfigVal { val: Some(ProtoVal::Duration(ProtoDuration { secs: 14, nanos: 14 })) }
    );
    assert_eq!(
        ConfigVal::OptUsize(Some(3)).into_proto(),
        ProtoConfigVal { val: Some(ProtoVal::OptUsize(ProtoOptionU64 { val: Some(3) })) }
    );
}

#[test]
fn values_that_cannot_be_read() {
    assert_eq!(
        ConfigVal::from_proto(&ProtoConfigVal { val: None }),
        Err(TryFromProtoError::UnknownEnumVariant)
    );
    let too_long = ProtoDuration { secs: u64::MAX, nanos: 1_000_000_000 };
    assert_eq!(
        ConfigVal::from_proto(&ProtoConfigVal { val: Some(ProtoVal::Duration(too_long)) }),
        Err(TryFromProtoError::OutOfRange)
    );
    let carried = ProtoDuration { secs: 1, nanos: 2_000_000_003 };
    assert_eq!(
        ConfigVal::from_proto(&ProtoConfigVal { val: Some(ProtoVal::Duration(carried)) }),
        Ok(ConfigVal::Duration(Duration::new(3, 3)))
    );
}

#[test]
fn apply_passes_over_unknown_configs_and_other_types() {
    let other: Config<bool> = Config::new("usize", true, "a bool under the name of another");
    let from = ConfigSet::new().add(&other).add(&string_config());
    let mut updates = ConfigUpdates::new();
    for e in from.entries() {
        updates.add(e);
    }
    let mut to = ConfigSet::new().add(&usize_config()).add(&bool_config());
    updates.apply(&mut to);
    assert_eq!(usize_config().get(&to), 1);
    assert_eq!(bool_config().get(&to), true);
    assert_eq!(to.entries().len(), 2);
}

#[test]
fn add_replaces_an_earlier_update() {
    let mut set = ConfigSet::new().add(&usize_config());
    let mut updates = ConfigUpdates::new();
    updates.add(set.entries()[0]);
    usize_config().set(&mut set, 5);
    updates.add(set.entries()[0]);
    assert_eq!(updates.len(), 1);
    let mut to = ConfigSet::new().add(&usize_config());
    updates.apply(&mut to);
    assert_eq!(usize_config().get(&to), 5);
}

#[test]
fn entries_come_in_ascending_order_of_their_names() {
    let zeta: Config<bool> = Config::new("zeta", true, "");
    let alpha: Config<u32> = Config::new("alpha", 1, "");
    let alphabet: Config<u32> = Config::new("alphabet", 2, "");
    let upper: Config<u32> = Config::new("Zeta", 3, "");
    let set = ConfigSet::new().add(&zeta).add(&alphabet).add(&upper).add(&alpha);
    let names: Vec<&str> = set.entries().iter().map(|e| e.name()).collect();
    assert_eq!(names, vec!["Zeta", "alpha", "alphabet", "zeta"]);
    let mut updates = ConfigUpdates::new();
    for e in set.entries() {
        updates.add(e);
    }
    let names: Vec<&str> = updates.updates.items().iter().map(|u| u.0.as_str()).collect();
    assert_eq!(names, vec!["Zeta", "alpha", "alphabet", "zeta"]);
}

#[test]
fn names_are_ordered_as_strings_are() {
    assert!(name_less("a", "b"));
    assert!(!name_less("b", "a"));
    assert!(!name_less("a", "a"));
    assert!(name_less("", "a"));
    assert!(!name_less("a", ""));
    assert!(name_less("ab", "abc"));
    assert!(name_less("abc", "abd"));
    assert!(name_less("Z", "a"));
    assert!(name_less("z", "\u{e9}"));
    for (a, b) in [("x", "y"), ("config", "configs"), ("\u{e9}", "\u{4e2d}")] {
        assert_eq!(name_less(a, b), a < b);
        assert_eq!(name_less(b, a), b < a);
    }
}
