use hash_match::{Collision, Function, Matcher};

type Branch = fn(()) -> &'static str;

fn branch_1(_: ()) -> &'static str {
    "branch_1"
}
fn branch_2(_: ()) -> &'static str {
    "branch_2"
}
fn branch_3(_: ()) -> &'static str {
    "branch_3"
}
fn branch_4(_: ()) -> &'static str {
    "branch_4"
}
fn branch_5(_: ()) -> &'static str {
    "branch_5"
}
fn default_branch(_: ()) -> &'static str {
    "default"
}

fn five_branches() -> Matcher<Branch> {
    Matcher::new([
        (b"branch_1" as &[u8], Function(branch_1 as Branch)),
        (b"branch_2", Function(branch_2 as Branch)),
        (b"branch_3", Function(branch_3 as Branch)),
        (b"branch_4", Function(branch_4 as Branch)),
        (b"branch_5", Function(branch_5 as Branch)),
    ], Function(default_branch as Branch)).unwrap()
}

#[test]
fn perform_simple_matching() {
    let matcher = five_branches();

    assert_eq!(matcher.call(b"invalid", ()), "default");
    assert_eq!(matcher.call(b"branch_1", ()), "branch_1");
    assert_eq!(matcher.call(b"branch_12", ()), "default");
    assert_eq!(matcher.call(b"branch_2", ()), "branch_2");
    assert_eq!(matcher.call(b"branch_3", ()), "branch_3");
    assert_eq!(matcher.call(b"branch_4", ()), "branch_4");
    assert_eq!(matcher.call(b"branch_5", ()), "branch_5");
}

#[test]
#[should_panic]
fn should_fail_on_collision() {
    fn default_branch(_: ()) {
    }

    let _matcher = Matcher::new([
        (b"test" as &[u8], Function(default_branch as fn(()))),
        (b"test", Function(default_branch as fn(()))),
    ], Function(default_branch as fn(()))).unwrap();
}

#[test]
fn duplicate_key_reports_its_index() {
    let r = Matcher::new([
        (b"test" as &[u8], Function(branch_1 as Branch)),
        (b"other", Function(branch_2 as Branch)),
        (b"test", Function(branch_3 as Branch)),
        (b"test", Function(branch_4 as Branch)),
    ], Function(default_branch as Branch));
    assert_eq!(r.err(), Some(Collision { index: 2 }));
}

#[test]
fn hashes_are_stored_ascending() {
    let matcher = five_branches();
    let names: [&[u8]; 5] = [b"branch_1", b"branch_2", b"branch_3", b"branch_4", b"branch_5"];
    let mut hashes: Vec<u128> = names.iter().map(|n| xxhash_rust::xxh3::xxh3_128(n)).collect();
    hashes.sort();
    assert_eq!(matcher.len(), 5);
    for (i, h) in hashes.iter().enumerate() {
        assert_eq!(matcher.find(*h), Some(i));
    }
    assert_eq!(matcher.find(xxhash_rust::xxh3::xxh3_128(b"invalid")), None);
}

#[test]
fn dispatch_by_hash() {
    let matcher = five_branches();
    assert_eq!(matcher.dispatch(xxhash_rust::xxh3::xxh3_128(b"branch_3"), ()), "branch_3");
    assert_eq!(matcher.dispatch(xxhash_rust::xxh3::xxh3_128(b"branch_"), ()), "default");
    assert_eq!(matcher.dispatch(0, ()), "default");
}

#[test]
fn input_order_does_not_matter() {
    let forward = five_branches();
    let backward = Matcher::new([
        (b"branch_5" as &[u8], Function(branch_5 as Branch)),
        (b"branch_4", Function(branch_4 as Branch)),
        (b"branch_3", Function(branch_3 as Branch)),
        (b"branch_2", Function(branch_2 as Branch)),
        (b"branch_1", Function(branch_1 as Branch)),
    ], Function(default_branch as Branch)).unwrap();
    let inputs: [&[u8]; 8] = [b"branch_1", b"branch_2", b"branch_3", b"branch_4", b"branch_5", b"", b"branch_12", b"x"];
    for input in inputs {
        assert_eq!(forward.call(input, ()), backward.call(input, ()));
    }
}

#[test]
fn empty_table_always_defaults() {
    let matcher: Matcher<Branch> = Matcher::new([], Function(default_branch as Branch)).unwrap();
    assert_eq!(matcher.len(), 0);
    assert_eq!(matcher.call(b"", ()), "default");
    assert_eq!(matcher.call(b"branch_1", ()), "default");
}

#[test]
fn callbacks_receive_the_argument() {
    fn double(x: u32) -> u32 {
        x * 2
    }
    fn square(x: u32) -> u32 {
        x * x
    }
    fn keep(x: u32) -> u32 {
        x
    }
    let matcher = Matcher::new([
        (b"double" as &[u8], Function(double as fn(u32) -> u32)),
        (b"square", Function(square as fn(u32) -> u32)),
    ], Function(keep as fn(u32) -> u32)).unwrap();
    assert_eq!(matcher.call(b"double", 7), 14);
    assert_eq!(matcher.call(b"square", 7), 49);
    assert_eq!(matcher.call(b"triple", 7), 7);
}
