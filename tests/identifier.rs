use ethers::abi::Abi;
use forge_broadcast::bytecode::{diff_score, ArtifactEntry, LocalTraceIdentifier, TraceIdentifier};

fn abi_with(receive: bool, fallback: bool) -> Abi {
    let mut abi = Abi::default();
    abi.receive = receive;
    abi.fallback = fallback;
    abi
}

fn entry(name: &str, abi: Abi, code: Vec<u8>) -> ArtifactEntry {
    ArtifactEntry { name: name.to_string(), abi, code }
}

fn code_foo() -> Vec<u8> {
    (0u8..40).collect()
}

#[test]
fn identical_bytecode_scores_zero() {
    let s = diff_score(&code_foo(), &code_foo());
    assert_eq!(s.diff, 0);
    assert_eq!(s.len, 40);
    assert!(s.is_match());
}

#[test]
fn empty_bytecode_scores_one() {
    let s = diff_score(&vec![], &code_foo());
    assert_eq!((s.diff, s.len), (40, 40));
    assert!(!s.is_match());
}

#[test]
fn score_counts_differing_bytes_over_common_prefix() {
    let a = vec![1u8, 2, 3, 4, 5];
    let b = vec![1u8, 9, 3, 9, 5, 6, 7];
    let s = diff_score(&a, &b);
    assert_eq!((s.diff, s.len), (4, 7));
    assert!(!s.is_match());
}

#[test]
fn score_threshold_is_strict() {
    let a: Vec<u8> = vec![0; 10];
    let mut b = a.clone();
    b[3] = 1;
    let s = diff_score(&a, &b);
    assert_eq!((s.diff, s.len), (1, 10));
    assert!(!s.is_match());
    let c: Vec<u8> = vec![0; 11];
    let mut d = c.clone();
    d[3] = 1;
    assert!(diff_score(&c, &d).is_match());
}

#[test]
fn appended_metadata_byte_still_identifies() {
    let id = LocalTraceIdentifier::new(vec![entry("Foo", abi_with(true, false), code_foo())]);
    let mut observed = code_foo();
    observed.push(0xa2);
    let addr = [7u8; 20];
    let (contract, label, abi) = id.identify_address(&addr, Some(&observed));
    assert_eq!(contract, Some("Foo".to_string()));
    assert_eq!(label, Some("Foo".to_string()));
    assert_eq!(abi, Some(&abi_with(true, false)));
}

#[test]
fn identical_bytecode_is_matched() {
    let id = LocalTraceIdentifier::new(vec![
        entry("Bar", abi_with(false, true), vec![9u8; 40]),
        entry("Foo", abi_with(true, false), code_foo()),
    ]);
    let (contract, _, abi) = id.identify(Some(&code_foo()));
    assert_eq!(contract, Some("Foo".to_string()));
    assert_eq!(abi, Some(&abi_with(true, false)));
    assert_eq!(id.best_match(&code_foo()), Some(1));
}

#[test]
fn dissimilar_bytecode_is_not_identified() {
    let id = LocalTraceIdentifier::new(vec![entry("Foo", abi_with(true, false), code_foo())]);
    let observed: Vec<u8> = code_foo().iter().map(|b| b.wrapping_add(1)).collect();
    let (contract, label, abi) = id.identify(Some(&observed));
    assert_eq!(contract, None);
    assert_eq!(label, None);
    assert_eq!(abi, None);
}

#[test]
fn missing_code_is_not_identified() {
    let id = LocalTraceIdentifier::new(vec![entry("Foo", abi_with(true, false), code_foo())]);
    let (contract, label, abi) = id.identify(None);
    assert_eq!((contract, label, abi), (None, None, None));
}

#[test]
fn empty_registry_identifies_nothing() {
    let id = LocalTraceIdentifier::new(vec![]);
    assert_eq!(id.best_match(&code_foo()), None);
}

#[test]
fn lowest_score_wins_over_earlier_match() {
    let mut near = code_foo();
    near[5] = 0xff;
    let id = LocalTraceIdentifier::new(vec![
        entry("Near", abi_with(false, true), near),
        entry("Exact", abi_with(true, false), code_foo()),
    ]);
    let (contract, _, _) = id.identify(Some(&code_foo()));
    assert_eq!(contract, Some("Exact".to_string()));
}

#[test]
fn equal_scores_pick_earliest_entry() {
    let mut first = code_foo();
    first[5] = 0xff;
    let mut second = code_foo();
    second[6] = 0xff;
    let id = LocalTraceIdentifier::new(vec![
        entry("First", abi_with(false, false), first),
        entry("Second", abi_with(true, true), second),
    ]);
    assert_eq!(id.best_match(&code_foo()), Some(0));
}

#[test]
fn shared_bytecode_keeps_last_entry() {
    let id = LocalTraceIdentifier::new(vec![
        entry("First", abi_with(false, false), code_foo()),
        entry("Second", abi_with(true, true), code_foo()),
    ]);
    assert_eq!(id.best_match(&code_foo()), Some(0));
    let (contract, _, abi) = id.identify(Some(&code_foo()));
    assert_eq!(contract, Some("Second".to_string()));
    assert_eq!(abi, Some(&abi_with(true, true)));
}

#[test]
fn prefix_does_not_score_as_identical() {
    let mut longer = code_foo();
    longer.push(0);
    let s = diff_score(&longer, &code_foo());
    assert_eq!((s.diff, s.len), (1, 41));
    let id = LocalTraceIdentifier::new(vec![
        entry("Longer", abi_with(false, true), longer),
        entry("Exact", abi_with(true, false), code_foo()),
    ]);
    let (contract, _, abi) = id.identify(Some(&code_foo()));
    assert_eq!(contract, Some("Exact".to_string()));
    assert_eq!(abi, Some(&abi_with(true, false)));
}

#[test]
fn added_entry_never_raises_lowest_score() {
    let mut near = code_foo();
    near[5] = 0xff;
    let one = LocalTraceIdentifier::new(vec![entry("Near", abi_with(false, true), near.clone())]);
    let two = LocalTraceIdentifier::new(vec![
        entry("Near", abi_with(false, true), near),
        entry("Far", abi_with(true, false), vec![0xee; 40]),
    ]);
    assert_eq!(one.best_match(&code_foo()), Some(0));
    assert_eq!(two.best_match(&code_foo()), Some(0));
}

#[test]
fn two_empty_arrays_score_zero() {
    let s = diff_score(&vec![], &vec![]);
    assert_eq!(s.diff, 0);
    assert!(s.len > 0);
    assert!(s.is_match());
}

#[test]
fn identify_returns_matched_entrys_abi() {
    let id = LocalTraceIdentifier::new(vec![
        entry("Bar", abi_with(false, true), vec![9u8; 40]),
        entry("Foo", abi_with(true, false), code_foo()),
    ]);
    let (contract, label, abi) = id.identify_address(&[3u8; 20], Some(&code_foo()));
    assert_eq!(contract, Some("Foo".to_string()));
    assert_eq!(label, Some("Foo".to_string()));
    assert_eq!(abi, Some(&abi_with(true, false)));
    assert_eq!(id.identify_address(&[4u8; 20], Some(&code_foo())), (contract, label, abi));
}
