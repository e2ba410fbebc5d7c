use rune_alloc::map::BTreeMap;

#[test]
fn format_macros() {
    let mut rendered: BTreeMap<u32, String> = BTreeMap::new();
    rendered.try_insert(0, format!("Hello World!")).unwrap();
    rendered.try_insert(1, format!("Hello {}!", "World")).unwrap();
    {
        let pos = "Hello";
        rendered.try_insert(2, format!("{pos} {}!", "World")).unwrap();
    }
    {
        let pos = "Not Hello";
        assert_eq!(pos, "Not Hello");
        rendered.try_insert(3, format!("{pos} {}!", "World", pos = "Hello")).unwrap();
    }
    assert_eq!(rendered.len(), 4);
    for (_, text) in rendered.iter() {
        assert_eq!(text.as_str(), "Hello World!");
        assert_eq!(format!("{}\n", text), "Hello World!\n");
    }
}
