use assistant2::context::{ContextAssembler, ContextId, ContextItem, ContextKind};

fn item(kind: ContextKind, key: u64, text: &str) -> ContextItem {
    ContextItem { id: ContextId { kind, key }, text: text.as_bytes().to_vec() }
}

fn id(kind: ContextKind, key: u64) -> ContextId {
    ContextId { kind, key }
}

#[test]
fn attaching_the_same_file_twice_gives_one_entry() {
    let mut assembler = ContextAssembler::new(1000);
    assembler.attach(item(ContextKind::File, 1, "old text"));
    assembler.attach(item(ContextKind::Rule, 1, "rule"));
    assembler.attach(item(ContextKind::File, 1, "new text"));
    assert_eq!(assembler.len(), 2);
    let out = assembler.materialize();
    assert!(out.dropped.is_empty());
    // the file stands last now, once, with the text of the second attach
    assert_eq!(out.items, vec![item(ContextKind::Rule, 1, "rule"), item(ContextKind::File, 1, "new text")]);
}

#[test]
fn same_key_of_another_kind_is_another_item() {
    let mut assembler = ContextAssembler::new(1000);
    assembler.attach(item(ContextKind::File, 1, "f"));
    assembler.attach(item(ContextKind::Symbol, 1, "s"));
    assert_eq!(assembler.len(), 2);
    assert!(assembler.contains(id(ContextKind::File, 1)));
    assert!(!assembler.contains(id(ContextKind::Thread, 1)));
}

#[test]
fn over_the_limit_items_give_way_by_rank_then_age() {
    let mut assembler = ContextAssembler::new(10);
    assembler.attach(item(ContextKind::File, 1, "ffff")); // 4
    assembler.attach(item(ContextKind::FetchedUrl, 2, "uuu")); // 3
    assembler.attach(item(ContextKind::Rule, 3, "rrrr")); // 4
    assembler.attach(item(ContextKind::Thread, 4, "tt")); // 2
    assembler.attach(item(ContextKind::File, 5, "gg")); // 2
    // 15 bytes: the url goes (12), the thread goes (10), and that fits
    let out = assembler.materialize();
    assert_eq!(out.dropped, vec![id(ContextKind::FetchedUrl, 2), id(ContextKind::Thread, 4)]);
    assert_eq!(
        out.items,
        vec![
            item(ContextKind::File, 1, "ffff"),
            item(ContextKind::Rule, 3, "rrrr"),
            item(ContextKind::File, 5, "gg")
        ]
    );
    let total: usize = out.items.iter().map(|i| i.text.len()).sum();
    assert_eq!(total, 10);
}

#[test]
fn among_one_rank_the_oldest_goes_first_and_rules_go_last() {
    let mut assembler = ContextAssembler::new(5);
    assembler.attach(item(ContextKind::File, 1, "aaa"));
    assembler.attach(item(ContextKind::Rule, 2, "rrrr"));
    assembler.attach(item(ContextKind::File, 3, "bbb"));
    // 10 bytes: file 1 goes (7), file 3 goes (4)
    let out = assembler.materialize();
    assert_eq!(out.dropped, vec![id(ContextKind::File, 1), id(ContextKind::File, 3)]);
    assert_eq!(out.items, vec![item(ContextKind::Rule, 2, "rrrr")]);

    let mut small = ContextAssembler::new(3);
    small.attach(item(ContextKind::Rule, 2, "rrrr"));
    small.attach(item(ContextKind::File, 3, "b"));
    let out = small.materialize();
    assert!(out.items.is_empty());
    assert_eq!(out.dropped, vec![id(ContextKind::Rule, 2), id(ContextKind::File, 3)]);
}

#[test]
fn an_item_is_kept_once_enough_went_before_it() {
    let mut assembler = ContextAssembler::new(4);
    assembler.attach(item(ContextKind::Thread, 1, "tttt"));
    assembler.attach(item(ContextKind::Thread, 2, "uu"));
    assembler.attach(item(ContextKind::Thread, 3, "vv"));
    let out = assembler.materialize();
    assert_eq!(out.dropped, vec![id(ContextKind::Thread, 1)]);
    assert_eq!(out.items.len(), 2);
    // materializing does not change the working set
    assert_eq!(assembler.len(), 3);
}

#[test]
fn suggestions_wait_until_accepted() {
    let mut assembler = ContextAssembler::new(100);
    assert!(assembler.suggest(item(ContextKind::File, 9, "recent")));
    assert!(!assembler.suggest(item(ContextKind::File, 9, "again")));
    assert_eq!(assembler.len(), 0);
    assert!(assembler.materialize().items.is_empty());
    assert!(!assembler.accept_suggested(id(ContextKind::File, 8)));
    assert!(assembler.accept_suggested(id(ContextKind::File, 9)));
    assert!(!assembler.accept_suggested(id(ContextKind::File, 9)));
    assert_eq!(assembler.materialize().items, vec![item(ContextKind::File, 9, "recent")]);
    // what is attached is not suggested again
    assert!(!assembler.suggest(item(ContextKind::File, 9, "x")));
}

#[test]
fn remove_and_remove_all() {
    let mut assembler = ContextAssembler::new(100);
    assembler.attach(item(ContextKind::File, 1, "a"));
    assembler.attach(item(ContextKind::Rule, 2, "b"));
    assembler.suggest(item(ContextKind::Thread, 3, "c"));
    assert!(assembler.remove(id(ContextKind::File, 1)));
    assert!(!assembler.remove(id(ContextKind::File, 1)));
    assert_eq!(assembler.materialize().items, vec![item(ContextKind::Rule, 2, "b")]);
    assembler.remove_all();
    assert_eq!(assembler.len(), 0);
    assert!(assembler.accept_suggested(id(ContextKind::Thread, 3)));
    assert_eq!(assembler.len(), 1);
}

#[test]
fn materialized_items_are_copies() {
    let mut assembler = ContextAssembler::new(100);
    assembler.attach(item(ContextKind::File, 1, "before"));
    let sent = assembler.materialize();
    assembler.attach(item(ContextKind::File, 1, "after"));
    assert_eq!(sent.items, vec![item(ContextKind::File, 1, "before")]);
    let copy = sent.items[0].duplicate();
    assert_eq!(copy, sent.items[0]);
}
