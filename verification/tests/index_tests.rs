use csf_reader::assets::{get_data_names, AssetStore};
use csf_reader::index::{flip_string_vert, IndexedScore};
use csf_reader::score::Score;

fn store(entries: &[(&str, &str)]) -> AssetStore {
    let mut s = AssetStore::new();
    for (name, text) in entries {
        s.add(name.to_string(), text.to_string());
    }
    s
}

#[test]
fn asset_lookup_and_names() {
    let s = store(&[("one", "1"), ("two", "2")]);
    assert_eq!(get_data_names(&s), vec!["one".to_string(), "two".to_string()]);
    assert_eq!(s.lookup("one"), Some("1".to_string()));
    assert_eq!(s.lookup("two"), Some("2".to_string()));
    assert_eq!(s.lookup("three"), None);
}

#[test]
fn indexed_measure_count_matches_score() {
    let s = store(&[]);
    let score = Score::from_str("a\n---\n\n---\nb\nc\n", &get_data_names(&s)).unwrap();
    assert_eq!(score.measures.len(), 3);
    let indexed = IndexedScore::from_score(&s, &score);
    assert_eq!(indexed.measures.len(), score.measures.len());
    assert_eq!(indexed.measures[1].items.len(), 0);
    assert_eq!(indexed.measures[2].items.len(), 2);
}

#[test]
fn moveto_positions_single_item() {
    // An unregistered name is shown verbatim as a visible placeholder.
    let s = store(&[]);
    let score = Score::from_str("#MOVETO 2 1\nhello\n", &get_data_names(&s)).unwrap();
    let indexed = IndexedScore::from_score(&s, &score);
    assert_eq!(indexed.measures.len(), 1);
    assert_eq!(indexed.measures[0].items.len(), 1);
    let item = &indexed.measures[0].items[0];
    assert_eq!(item.x, 2);
    assert_eq!(item.y, 1);
    assert_eq!(item.z, 0);
    assert_eq!(item.content, "hello");
}

#[test]
fn flip_reverses_line_order_only() {
    assert_eq!(flip_string_vert("a\nb".to_string()), "b\na");
    assert_eq!(flip_string_vert("ab\ncd\nef".to_string()), "ef\ncd\nab");
    assert_eq!(flip_string_vert("one".to_string()), "one");
}

#[test]
fn flip_state_persists_across_measures() {
    // The flip issued in measure 0 still applies to the asset resolved in
    // measure 1: ambient state is not reset at the separator.
    let s = store(&[("ml", "a\nb"), ("c", "x\ny")]);
    let ns = get_data_names(&s);
    let score = Score::from_str("#FLIP vertical on\nml\n---\nc\n", &ns).unwrap();
    let indexed = IndexedScore::from_score(&s, &score);
    assert_eq!(indexed.measures[0].items[0].content, "b\na");
    assert_eq!(indexed.measures[1].items[0].content, "y\nx");
}

#[test]
fn ambient_position_persists_until_overridden() {
    let s = store(&[]);
    let text = "#MOVETO 3 4\n#ZINDEX 2\na\n---\nb\n#MOVETO 0 0\nc\n";
    let score = Score::from_str(text, &get_data_names(&s)).unwrap();
    let indexed = IndexedScore::from_score(&s, &score);
    let a = &indexed.measures[0].items[0];
    assert_eq!((a.x, a.y, a.z), (3, 4, 2));
    // "b" in measure 1 still sees the state measure 0 left behind.
    let b = &indexed.measures[1].items[0];
    assert_eq!((b.x, b.y, b.z), (3, 4, 2));
    // "c" follows the override; the z index is untouched by MOVETO.
    let c = &indexed.measures[1].items[1];
    assert_eq!((c.x, c.y, c.z), (0, 0, 2));
}

#[test]
fn missing_asset_falls_back_to_its_name() {
    // "ghost" is a known name at parse time but the store cannot resolve it.
    let names = vec!["ghost".to_string()];
    let score = Score::from_str("ghost\n", &names).unwrap();
    let empty = store(&[]);
    let indexed = IndexedScore::from_score(&empty, &score);
    assert_eq!(indexed.measures[0].items[0].content, "ghost");
}

#[test]
fn inline_literal_backslash_is_not_an_escape() {
    // The notation has no escape processing: a backslash-n inside a quoted
    // line stays two characters, so the line is a single line and a vertical
    // flip leaves it unchanged. Multi-line content enters through assets.
    let s = store(&[]);
    let score = Score::from_str("#FLIP vertical on\n\"a\\nb\"\n", &get_data_names(&s)).unwrap();
    let indexed = IndexedScore::from_score(&s, &score);
    assert_eq!(indexed.measures[0].items[0].content, "a\\nb");
}

#[test]
fn inline_literal_is_not_resolved() {
    // A quoted line matching an asset name stays inline.
    let s = store(&[("hello", "asset text")]);
    let ns = get_data_names(&s);
    let score = Score::from_str("\"hello\"\nhello\n", &ns).unwrap();
    let indexed = IndexedScore::from_score(&s, &score);
    assert_eq!(indexed.measures[0].items[0].content, "hello");
    assert_eq!(indexed.measures[0].items[1].content, "asset text");
}
