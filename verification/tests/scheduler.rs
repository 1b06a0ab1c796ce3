use recall::list::{EditThing, NewThing, ThingList};
use recall::thing::Thing;
use recall::time::Time;

fn item(name: &str, next: u64, count: u64, chosen: u64, first: u64) -> Thing {
    Thing {
        name: name.as_bytes().to_vec(),
        link: None,
        created: Time(0),
        first_chosen: Time(first),
        chosen: Time(chosen),
        next: Time(next),
        count,
        parent_code: b"c".to_vec(),
        parent_name: b"l".to_vec(),
    }
}

fn list(things: Vec<Thing>) -> ThingList {
    ThingList { code: b"c".to_vec(), name: b"l".to_vec(), things }
}

fn nexts(l: &ThingList) -> Vec<u64> {
    l.things.iter().map(|t| t.next.0).collect()
}

fn is_sorted(l: &ThingList) -> bool {
    l.things.windows(2).all(|w| w[0].next.0 <= w[1].next.0)
}

#[test]
fn accept_example_scenario() {
    // A(next=10) and B(next=20), two prior accepts in the list, all on B
    let a = item("A", 10, 0, 0, 0);
    let b = item("B", 20, 2, 2, 1);
    let mut l = list(vec![a, b]);
    assert_eq!(l.now().0, 2);
    l.accept(b"A");
    // now = 3; A.count == 0, so A.next = now + list mean interval
    // list mean interval = ceil((2 + 1) / (2 + 1)) = 1, so A.next = 4
    let a2 = l.things.iter().find(|t| t.name == b"A".to_vec()).unwrap();
    assert_eq!(a2.next.0, 4);
    assert_eq!(a2.chosen.0, 3);
    assert_eq!(a2.first_chosen.0, 3);
    assert_eq!(a2.count, 1);
    // A is before B exactly because A.next <= B.next
    assert_eq!(l.things[0].name, b"A".to_vec());
    assert_eq!(l.things[1].name, b"B".to_vec());
    assert!(is_sorted(&l));
}

#[test]
fn accept_counts_strictly_increase() {
    let mut l = list(vec![item("x", 0, 0, 0, 0)]);
    let mut prev_count = 0;
    let mut prev_chosen = 0;
    let mut prev_first = 0;
    for _ in 0..5 {
        l.accept(b"x");
        let x = l.things.iter().find(|t| t.name == b"x".to_vec()).unwrap();
        assert_eq!(x.count, prev_count + 1);
        assert!(x.chosen.0 >= prev_chosen);
        assert!(x.first_chosen.0 >= prev_first);
        prev_count = x.count;
        prev_chosen = x.chosen.0;
        prev_first = x.first_chosen.0;
        assert!(is_sorted(&l));
    }
    assert_eq!(prev_count, 5);
}

#[test]
fn first_accept_fixpoint() {
    // before any accept: first_chosen == chosen == created
    let fresh = item("y", 7, 0, 7, 7);
    let mut with_created = fresh;
    with_created.created = Time(7);
    let mut l = list(vec![with_created]);
    {
        let y = &l.things[0];
        assert_eq!(y.first_chosen.0, y.chosen.0);
        assert_eq!(y.chosen.0, y.created.0);
    }
    l.accept(b"y");
    // immediately after the first accept: first_chosen == chosen == new now
    let y = &l.things[0];
    assert_eq!(y.count, 1);
    assert_eq!(y.chosen.0, 1);
    assert_eq!(y.first_chosen.0, 1);
}

#[test]
fn accept_unknown_name_creates_and_accepts() {
    let mut l = list(vec![item("a", 5, 1, 1, 1)]);
    l.accept(b"new");
    assert_eq!(l.things.len(), 2);
    let n = l.things.iter().find(|t| t.name == b"new".to_vec()).unwrap();
    assert_eq!(n.count, 1);
    assert_eq!(n.chosen.0, 2);
    assert!(is_sorted(&l));
}

#[test]
fn accept_blends_history_with_geometric_mean() {
    // one item with history: count 2, first 1, chosen 2; a second item
    // carries the rest of the clock
    let a = item("a", 10, 2, 2, 1);
    let b = item("b", 30, 4, 4, 3);
    let mut l = list(vec![a, b]);
    // now = 7; last interval = 7 - 2 = 5; item mean = (2-1)/(2-1) = 1;
    // list mean = ceil((6+1)/(2+1)) = 3; gm(5,1,3) = floor(cbrt 15) = 2
    l.accept(b"a");
    let a2 = l.things.iter().find(|t| t.name == b"a".to_vec()).unwrap();
    assert_eq!(a2.chosen.0, 7);
    assert_eq!(a2.count, 3);
    assert_eq!(a2.next.0, 9);
    assert!(is_sorted(&l));
}

#[test]
fn delay_tail_is_noop() {
    let a = item("a", 5, 1, 1, 1);
    let b = item("b", 9, 2, 2, 1);
    let mut l = list(vec![a, b]);
    let before = l.save();
    l.delay(b"b");
    let after = l.save();
    // the item last in priority order stays byte-for-byte unchanged
    assert_eq!(before, after);
}

#[test]
fn delay_unknown_name_is_noop() {
    let mut l = list(vec![item("a", 5, 1, 1, 1), item("b", 9, 2, 2, 1)]);
    let before = l.save();
    l.delay(b"zzz");
    assert_eq!(before, l.save());
}

#[test]
fn delay_only_perturbs_priority() {
    let a = item("a", 5, 3, 3, 1);
    let b = item("b", 9, 2, 5, 4);
    let c = item("c", 40, 1, 6, 6);
    let mut l = list(vec![a, b, c]);
    l.delay(b"a");
    assert_eq!(l.things.len(), 3);
    assert!(is_sorted(&l));
    let a2 = l.things.iter().find(|t| t.name == b"a".to_vec()).unwrap();
    // count, chosen, first_chosen never move on a delay
    assert_eq!(a2.count, 3);
    assert_eq!(a2.chosen.0, 3);
    assert_eq!(a2.first_chosen.0, 1);
    assert!(a2.next.0 >= 5);
    // the other items are untouched
    let b2 = l.things.iter().find(|t| t.name == b"b".to_vec()).unwrap();
    assert_eq!((b2.next.0, b2.count, b2.chosen.0), (9, 2, 5));
    let c2 = l.things.iter().find(|t| t.name == b"c".to_vec()).unwrap();
    assert_eq!((c2.next.0, c2.count, c2.chosen.0), (40, 1, 6));
}

#[test]
fn create_appends_fresh_item() {
    let mut l = list(vec![item("a", 5, 2, 2, 1)]);
    l.create(b"fresh");
    assert_eq!(l.things.len(), 2);
    let f = &l.things[1];
    assert_eq!(f.name, b"fresh".to_vec());
    assert_eq!(f.count, 0);
    // created at the current virtual instant
    assert_eq!(f.created.0, 2);
    assert_eq!(f.first_chosen.0, 2);
    assert_eq!(f.chosen.0, 2);
    assert_eq!(f.next.0, 2);
    assert_eq!(f.link, None);
}

#[test]
fn new_thing_saves_into_list() {
    let mut l = list(vec![]);
    let req = NewThing { code: b"k".to_vec(), name: b"n".to_vec(), list: b"m".to_vec() };
    req.save(&mut l);
    assert_eq!(l.things.len(), 1);
    assert_eq!(l.things[0].name, b"n".to_vec());
    assert_eq!(l.things[0].parent_code, b"k".to_vec());
    assert_eq!(l.things[0].parent_name, b"m".to_vec());
    assert_eq!(l.things[0].count, 0);
}

#[test]
fn edit_renames_and_sets_link() {
    let mut l = list(vec![item("old", 5, 2, 2, 1)]);
    let req = EditThing {
        code: b"c".to_vec(),
        name: b"old".to_vec(),
        list: b"l".to_vec(),
        link: b"http://example/".to_vec(),
        newname: b"new".to_vec(),
    };
    req.edit(&mut l);
    assert_eq!(l.things.len(), 1);
    let t = &l.things[0];
    assert_eq!(t.name, b"new".to_vec());
    assert_eq!(t.link, Some(b"http://example/".to_vec()));
    // scheduling fields never move on an edit
    assert_eq!((t.next.0, t.count, t.chosen.0, t.first_chosen.0), (5, 2, 2, 1));
}

#[test]
fn edit_empty_link_keeps_link() {
    let mut start = item("a", 5, 2, 2, 1);
    start.link = Some(b"kept".to_vec());
    let mut l = list(vec![start]);
    let req = EditThing {
        code: b"c".to_vec(),
        name: b"a".to_vec(),
        list: b"l".to_vec(),
        link: Vec::new(),
        newname: b"b".to_vec(),
    };
    req.edit(&mut l);
    assert_eq!(l.things[0].name, b"b".to_vec());
    assert_eq!(l.things[0].link, Some(b"kept".to_vec()));
}

#[test]
fn edit_unknown_creates_one_tick_later() {
    let mut l = list(vec![item("a", 5, 2, 2, 1)]);
    let req = EditThing {
        code: b"c".to_vec(),
        name: b"missing".to_vec(),
        list: b"l".to_vec(),
        link: Vec::new(),
        newname: b"renamed".to_vec(),
    };
    req.edit(&mut l);
    assert_eq!(l.things.len(), 2);
    let t = &l.things[1];
    assert_eq!(t.name, b"renamed".to_vec());
    // fresh at one tick past the virtual clock
    assert_eq!(t.created.0, 3);
    assert_eq!(t.count, 0);
}

#[test]
fn sorted_reranks_by_count_then_chosen() {
    let a = item("a", 50, 3, 9, 1);
    let b = item("b", 10, 1, 7, 2);
    let c = item("c", 30, 1, 4, 3);
    let l = list(vec![a, b, c]);
    // keys: a -> (3, 9), b -> (1, 7), c -> (1, 4); order: c, b, a
    let r = l.sorted();
    let names: Vec<Vec<u8>> = r.things.iter().map(|t| t.name.clone()).collect();
    assert_eq!(names, vec![b"c".to_vec(), b"b".to_vec(), b"a".to_vec()]);
    // priorities become consecutive virtual instants from now() == 5
    assert_eq!(nexts(&r), vec![5, 6, 7]);
    assert!(is_sorted(&r));
}

#[test]
fn sorted_keeps_equal_keys_in_order() {
    let a = item("a", 50, 1, 4, 1);
    let b = item("b", 10, 1, 4, 2);
    let l = list(vec![a, b]);
    let r = l.sorted();
    let names: Vec<Vec<u8>> = r.things.iter().map(|t| t.name.clone()).collect();
    assert_eq!(names, vec![b"a".to_vec(), b"b".to_vec()]);
}

#[test]
fn filter_keeps_substring_matches() {
    let l = list(vec![item("apple", 1, 0, 0, 0), item("grape", 2, 0, 0, 0), item(
        "plum",
        3,
        0,
        0,
        0,
    )]);
    let r = l.filter(b"ap");
    let names: Vec<Vec<u8>> = r.things.iter().map(|t| t.name.clone()).collect();
    assert_eq!(names, vec![b"apple".to_vec(), b"grape".to_vec()]);
    // the empty pattern keeps everything
    let l2 = list(vec![item("a", 1, 0, 0, 0)]);
    assert_eq!(l2.filter(b"").things.len(), 1);
    // the search is case-sensitive
    let l3 = list(vec![item("Apple", 1, 0, 0, 0)]);
    assert_eq!(l3.filter(b"apple").things.len(), 0);
}

#[test]
fn priority_is_next() {
    let t = item("a", 42, 0, 0, 0);
    assert_eq!(t.priority().0, 42);
}

#[test]
fn slug_replaces_quotes_and_blanks() {
    let t = item("a b'c\"d\\e", 0, 0, 0, 0);
    assert_eq!(t.slug(), b"a-b-c-d-e".to_vec());
}

#[test]
fn item_mean_interval_needs_history() {
    // fewer than two accepts: the one-tick baseline
    assert_eq!(item("a", 0, 0, 0, 0).mean_interval().0, 1);
    assert_eq!(item("a", 0, 1, 9, 9).mean_interval().0, 1);
    // with history: (chosen - first_chosen) / (count - 1)
    assert_eq!(item("a", 0, 3, 9, 1).mean_interval().0, 4);
}

#[test]
fn list_mean_interval_is_smoothed() {
    // empty list: ceil((0 + 1) / 1) = 1, never zero
    assert_eq!(list(vec![]).mean_interval().0, 1);
    // two items, clock at 6: ceil(7 / 3) = 3
    let l = list(vec![item("a", 0, 2, 2, 1), item("b", 0, 4, 4, 1)]);
    assert_eq!(l.mean_interval().0, 3);
}

#[test]
fn delay_pushes_item_later() {
    // the blended distance is 71 here, so every jitter outcome pushes
    // the item's priority strictly later (by 7 to 70 ticks)
    let a = item("a", 0, 1, 0, 0);
    let b = item("b", 1000, 100, 50, 1);
    let mut l = list(vec![a, b]);
    l.delay(b"a");
    let a2 = l.things.iter().find(|t| t.name == b"a".to_vec()).unwrap();
    assert!(a2.next.0 > 0);
    assert!((7..=70).contains(&a2.next.0));
    assert!(is_sorted(&l));
}

#[test]
fn workout_keeps_invariants() {
    let mut l = list(vec![]);
    for name in [&b"alpha"[..], b"beta", b"gamma"] {
        l.create(name);
    }
    let names = [&b"alpha"[..], b"beta", b"gamma", b"alpha", b"beta", b"alpha"];
    for (i, name) in names.iter().cycle().take(18).enumerate() {
        l.accept(name);
        assert!(is_sorted(&l));
        assert_eq!(l.now().0, (i + 1) as u64);
        if i % 3 == 0 {
            l.delay(b"beta");
            assert!(is_sorted(&l));
        }
        // every item keeps its timing invariants
        for t in &l.things {
            if t.count == 0 {
                assert_eq!(t.first_chosen.0, t.chosen.0);
                assert_eq!(t.chosen.0, t.created.0);
            }
            assert!(t.first_chosen.0 <= t.chosen.0);
        }
    }
    // the stored form round-trips, and loading it again is idempotent
    let bytes = l.save();
    let r = ThingList::load(b"c", b"l", Some(bytes.as_slice()));
    assert_eq!(r.things.len(), l.things.len());
    for (a, b) in l.things.iter().zip(r.things.iter()) {
        assert!(a == b);
    }
    let bytes2 = r.save();
    assert_eq!(bytes, bytes2);
}

#[test]
fn jitter_stays_in_range() {
    for _ in 0..100 {
        let j = recall::jitter::jitter_permille();
        assert!((100..1000).contains(&j));
    }
}
