use config_registry::configs::{EncabulatorConfig, EncabulatorConfigV1, PositronConfig};
use config_registry::registry::{AttachHandle, ConfigError, ConfigRegistry};
use config_registry::store::Store;
use config_registry::value::ConfigValue;

fn attach_and_read<T: ConfigValue>(
    reg: &mut ConfigRegistry<T>,
    key: &str,
    store: &Store,
) -> AttachHandle {
    let id = reg.register(key.to_string());
    let ticket = reg.attach(id).unwrap();
    assert!(reg.poll_attach(ticket).is_none());
    reg.process_reads(store);
    reg.poll_attach(ticket).unwrap()
}

#[test]
fn absent_key_takes_declared_default() {
    let store = Store::new();
    let mut reg: ConfigRegistry<PositronConfig> = ConfigRegistry::new();
    let h = attach_and_read(&mut reg, "positron/config", &store);
    assert_eq!(reg.load(&h).unwrap(), PositronConfig { up: 10, down: 20, strange: 103 });
}

#[test]
fn present_key_takes_decoded_value() {
    let mut store = Store::new();
    let stored = PositronConfig { up: 1, down: 300, strange: 70000 };
    store.set("positron/config".to_string(), stored.encode());
    let mut reg: ConfigRegistry<PositronConfig> = ConfigRegistry::new();
    let h = attach_and_read(&mut reg, "positron/config", &store);
    assert_eq!(reg.load(&h).unwrap(), stored);
}

#[test]
fn undecodable_bytes_take_declared_default() {
    let mut store = Store::new();
    store.set("positron/config".to_string(), vec![0xff, 0x00, 0x13]);
    let mut reg: ConfigRegistry<PositronConfig> = ConfigRegistry::new();
    let h = attach_and_read(&mut reg, "positron/config", &store);
    assert_eq!(reg.load(&h).unwrap(), PositronConfig::default());
}

#[test]
fn missing_required_field_takes_declared_default() {
    let mut store = Store::new();
    // an array of two: `strange` is missing
    store.set("positron/config".to_string(), vec![0x82, 0x01, 0x02]);
    let mut reg: ConfigRegistry<PositronConfig> = ConfigRegistry::new();
    let h = attach_and_read(&mut reg, "positron/config", &store);
    assert_eq!(reg.load(&h).unwrap(), PositronConfig::default());
}

#[test]
fn round_trip_of_values() {
    let vs = [
        EncabulatorConfig { polarity: true, spinrate: None },
        EncabulatorConfig { polarity: false, spinrate: Some(0) },
        EncabulatorConfig { polarity: true, spinrate: Some(23) },
        EncabulatorConfig { polarity: true, spinrate: Some(24) },
        EncabulatorConfig { polarity: true, spinrate: Some(255) },
        EncabulatorConfig { polarity: true, spinrate: Some(256) },
        EncabulatorConfig { polarity: true, spinrate: Some(65536) },
        EncabulatorConfig { polarity: true, spinrate: Some(u32::MAX) },
    ];
    for v in vs {
        assert_eq!(EncabulatorConfig::decode(&v.encode()), Some(v));
    }
    let ps = [
        PositronConfig { up: 0, down: 0, strange: 0 },
        PositronConfig { up: 255, down: 65535, strange: u32::MAX },
        PositronConfig { up: 24, down: 256, strange: 65535 },
    ];
    for p in ps {
        assert_eq!(PositronConfig::decode(&p.encode()), Some(p));
    }
}

#[test]
fn exact_stored_forms() {
    assert_eq!(PositronConfig::default().encode(), vec![0x83, 0x0a, 0x14, 0x18, 0x67]);
    assert_eq!(
        EncabulatorConfig { polarity: true, spinrate: Some(100) }.encode(),
        vec![0x82, 0xf5, 0x18, 0x64]
    );
    assert_eq!(EncabulatorConfig { polarity: false, spinrate: None }.encode(), vec![0x81, 0xf4]);
    assert_eq!(
        PositronConfig { up: 1, down: 0x1234, strange: 0x01020304 }.encode(),
        vec![0x83, 0x01, 0x19, 0x12, 0x34, 0x1a, 0x01, 0x02, 0x03, 0x04]
    );
}

#[test]
fn old_schema_decodes_under_new_schema() {
    let old = EncabulatorConfigV1 { polarity: true }.encode();
    assert_eq!(old, vec![0x81, 0xf5]);
    assert_eq!(
        EncabulatorConfig::decode(&old),
        Some(EncabulatorConfig { polarity: true, spinrate: None })
    );
}

#[test]
fn unknown_later_fields_are_stepped_over() {
    // [true, 100, "abc", [1, 2]]
    let bytes = vec![0x84, 0xf5, 0x18, 0x64, 0x63, 0x61, 0x62, 0x63, 0x82, 0x01, 0x02];
    assert_eq!(
        EncabulatorConfig::decode(&bytes),
        Some(EncabulatorConfig { polarity: true, spinrate: Some(100) })
    );
}

#[test]
fn null_optional_field_reads_as_none() {
    assert_eq!(
        EncabulatorConfig::decode(&[0x82, 0xf4, 0xf6]),
        Some(EncabulatorConfig { polarity: false, spinrate: None })
    );
}

#[test]
fn out_of_range_field_does_not_decode() {
    // up = 256 does not fit a u8
    assert_eq!(PositronConfig::decode(&[0x83, 0x19, 0x01, 0x00, 0x01, 0x01]), None);
    // non-shortest head forms are accepted
    assert_eq!(
        PositronConfig::decode(&[0x83, 0x18, 0x05, 0x19, 0x00, 0x01, 0x1a, 0x00, 0x00, 0x00, 0x02]),
        Some(PositronConfig { up: 5, down: 1, strange: 2 })
    );
    assert_eq!(PositronConfig::decode(&[]), None);
    assert_eq!(PositronConfig::decode(&[0x9f, 0x01, 0x02, 0x03, 0xff]), None);
}

#[test]
fn write_then_drain_yields_one_pair() {
    let store = Store::new();
    let mut reg: ConfigRegistry<EncabulatorConfig> = ConfigRegistry::new();
    let h = attach_and_read(&mut reg, "encabulator/config", &store);
    let other = attach_and_read(&mut reg, "encabulator/other", &store);
    let v = EncabulatorConfig { polarity: true, spinrate: Some(7) };
    reg.write(&h, v).unwrap();
    let mut out = Vec::new();
    reg.process_writes(&mut out);
    assert_eq!(out.len(), 1);
    assert_eq!(out[0].0, "encabulator/config");
    assert_eq!(EncabulatorConfig::decode(&out[0].1), Some(v));
    let mut again = Vec::new();
    reg.process_writes(&mut again);
    assert!(again.is_empty());
    assert_eq!(reg.load(&other).unwrap(), EncabulatorConfig { polarity: false, spinrate: None });
}

#[test]
fn last_write_before_drain_wins() {
    let store = Store::new();
    let mut reg: ConfigRegistry<PositronConfig> = ConfigRegistry::new();
    let h = attach_and_read(&mut reg, "positron/config", &store);
    reg.write(&h, PositronConfig { up: 1, down: 2, strange: 3 }).unwrap();
    reg.write(&h, PositronConfig { up: 4, down: 5, strange: 6 }).unwrap();
    let mut out = Vec::new();
    reg.process_writes(&mut out);
    assert_eq!(out.len(), 1);
    assert_eq!(out[0].1, PositronConfig { up: 4, down: 5, strange: 6 }.encode());
}

#[test]
fn second_read_pass_changes_nothing() {
    let mut store = Store::new();
    store.set("positron/config".to_string(), PositronConfig { up: 1, down: 2, strange: 3 }.encode());
    let mut reg: ConfigRegistry<PositronConfig> = ConfigRegistry::new();
    let h = attach_and_read(&mut reg, "positron/config", &store);
    reg.write(&h, PositronConfig { up: 9, down: 9, strange: 9 }).unwrap();
    let mut other = Store::new();
    other.set("positron/config".to_string(), PositronConfig { up: 7, down: 7, strange: 7 }.encode());
    reg.process_reads(&other);
    assert_eq!(reg.load(&h).unwrap(), PositronConfig { up: 9, down: 9, strange: 9 });
    let mut out = Vec::new();
    reg.process_writes(&mut out);
    assert_eq!(out.len(), 1);
}

#[test]
fn node_attached_after_a_pass_waits_for_the_next() {
    let store = Store::new();
    let mut reg: ConfigRegistry<PositronConfig> = ConfigRegistry::new();
    let first = reg.register("a".to_string());
    let second = reg.register("b".to_string());
    let t1 = reg.attach(first).unwrap();
    reg.process_reads(&store);
    let t2 = reg.attach(second).unwrap();
    assert!(reg.poll_attach(t1).is_some());
    assert!(reg.poll_attach(t2).is_none());
    reg.process_reads(&store);
    assert!(reg.poll_attach(t2).is_some());
}

#[test]
fn attach_twice_is_refused() {
    let mut reg: ConfigRegistry<PositronConfig> = ConfigRegistry::new();
    let id = reg.register("positron/config".to_string());
    assert!(reg.attach(id).is_ok());
    assert_eq!(reg.attach(id), Err(ConfigError::AlreadyAttached));
}

#[test]
fn attach_with_a_taken_key_is_refused() {
    let mut reg: ConfigRegistry<PositronConfig> = ConfigRegistry::new();
    let a = reg.register("positron/config".to_string());
    let b = reg.register("positron/config".to_string());
    assert!(reg.attach(a).is_ok());
    assert_eq!(reg.attach(b), Err(ConfigError::DuplicateKey));
}

#[test]
fn many_attaches_link_each_node_once() {
    let store = Store::new();
    let mut reg: ConfigRegistry<PositronConfig> = ConfigRegistry::new();
    let mut ids = Vec::new();
    for i in 0..20 {
        ids.push(reg.register(format!("node/{i}")));
    }
    let mut tickets = Vec::new();
    for round in 0..3 {
        for (i, id) in ids.iter().enumerate() {
            let r = reg.attach(*id);
            if round == 0 {
                tickets.push(r.unwrap());
            } else {
                assert_eq!(r, Err(ConfigError::AlreadyAttached), "node {i}");
            }
        }
    }
    reg.process_reads(&store);
    let mut handles = Vec::new();
    for t in tickets {
        handles.push(reg.poll_attach(t).unwrap());
    }
    for h in &handles {
        reg.write(h, PositronConfig { up: h.node as u8, down: 0, strange: 0 }).unwrap();
    }
    let mut out = Vec::new();
    reg.process_writes(&mut out);
    let keys: Vec<String> = out.iter().map(|p| p.0.clone()).collect();
    let expected: Vec<String> = (0..20).map(|i| format!("node/{i}")).collect();
    assert_eq!(keys, expected);
}

#[test]
fn detached_handle_is_refused() {
    let store = Store::new();
    let mut reg: ConfigRegistry<PositronConfig> = ConfigRegistry::new();
    let h = attach_and_read(&mut reg, "positron/config", &store);
    assert_eq!(reg.detach(&h), Ok(()));
    assert_eq!(reg.load(&h), Err(ConfigError::Detached));
    assert_eq!(reg.write(&h, PositronConfig::default()), Err(ConfigError::Detached));
    assert_eq!(reg.detach(&h), Err(ConfigError::Detached));
    // attaching again issues a new handle; the old one stays refused
    let t = reg.attach(h.node).unwrap();
    reg.process_reads(&store);
    let h2 = reg.poll_attach(t).unwrap();
    assert_eq!(reg.load(&h2).unwrap(), PositronConfig::default());
    assert_eq!(reg.load(&h), Err(ConfigError::Detached));
}

#[test]
fn detach_keeps_the_others_in_order() {
    let store = Store::new();
    let mut reg: ConfigRegistry<PositronConfig> = ConfigRegistry::new();
    let a = attach_and_read(&mut reg, "a", &store);
    let b = attach_and_read(&mut reg, "b", &store);
    let c = attach_and_read(&mut reg, "c", &store);
    reg.detach(&b).unwrap();
    reg.write(&c, PositronConfig::default()).unwrap();
    reg.write(&a, PositronConfig::default()).unwrap();
    let mut out = Vec::new();
    reg.process_writes(&mut out);
    let keys: Vec<&str> = out.iter().map(|p| p.0.as_str()).collect();
    assert_eq!(keys, vec!["a", "c"]);
}

#[test]
fn end_to_end_scenario() {
    let mut flash = Store::new();
    flash.set("encabulator/config".to_string(), EncabulatorConfigV1 { polarity: true }.encode());
    // no positron config

    let mut encab: ConfigRegistry<EncabulatorConfig> = ConfigRegistry::new();
    let mut positron: ConfigRegistry<PositronConfig> = ConfigRegistry::new();
    let e = encab.register("encabulator/config".to_string());
    let p = positron.register("positron/config".to_string());
    let te = encab.attach(e).unwrap();
    let tp = positron.attach(p).unwrap();
    encab.process_reads(&flash);
    positron.process_reads(&flash);
    let he = encab.poll_attach(te).unwrap();
    let hp = positron.poll_attach(tp).unwrap();
    assert_eq!(encab.load(&he).unwrap(), EncabulatorConfig { polarity: true, spinrate: None });
    assert_eq!(positron.load(&hp).unwrap(), PositronConfig { up: 10, down: 20, strange: 103 });

    let new_e = EncabulatorConfig { polarity: true, spinrate: Some(100) };
    let new_p = PositronConfig { up: 15, down: 25, strange: 108 };
    encab.write(&he, new_e).unwrap();
    positron.write(&hp, new_p).unwrap();
    let mut writes = Vec::new();
    encab.process_writes(&mut writes);
    positron.process_writes(&mut writes);
    assert_eq!(writes.len(), 2);
    assert_eq!(writes[0], ("encabulator/config".to_string(), new_e.encode()));
    assert_eq!(writes[1], ("positron/config".to_string(), new_p.encode()));
    assert_eq!(EncabulatorConfig::decode(&writes[0].1), Some(new_e));
    assert_eq!(PositronConfig::decode(&writes[1].1), Some(new_p));
}

#[test]
fn store_get_and_set() {
    let mut s = Store::new();
    assert!(s.get(&"k".to_string()).is_none());
    s.set("k".to_string(), vec![1]);
    s.set("k".to_string(), vec![2, 3]);
    assert_eq!(s.get(&"k".to_string()), Some(&vec![2, 3]));
    assert!(s.get(&"j".to_string()).is_none());
}
