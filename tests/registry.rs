use pont::registry::Registry;

#[test]
fn registry_insert_lookup_remove() {
    let mut reg: Registry<u32> = Registry::new();
    assert!(reg.insert_new("red fox".to_string(), 1));
    assert!(!reg.insert_new("red fox".to_string(), 2));
    assert!(reg.insert_new("blue owl".to_string(), 3));
    assert_eq!(reg.len(), 2);
    assert_eq!(reg.lookup(&"red fox".to_string()), Some(&1));
    assert_eq!(reg.lookup(&"green elk".to_string()), None);
    assert!(reg.contains(&"blue owl".to_string()));
    assert_eq!(reg.remove(&"red fox".to_string()), Some(1));
    assert_eq!(reg.remove(&"red fox".to_string()), None);
    assert!(!reg.contains(&"red fox".to_string()));
    assert_eq!(reg.len(), 1);
}
