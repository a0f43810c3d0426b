use call_stack::machine::{reconcile_local, ConsistencyViolation};
use call_stack::maybe::Maybe;
use call_stack::metrics::{max, max_of, Local, Max};
use call_stack::names::{dehash, is_tag, parse_u64_ok, strip_version, trait_method_key};
use call_stack::target::Target;

#[test]
fn addition_laws_exact() {
    // Exact + Exact stays exact and sums
    assert_eq!(Max::Exact(3).add(Local::Exact(4)), Max::Exact(7));
    assert_eq!(Max::Exact(3).add_max(Max::Exact(4)), Max::Exact(7));
}

#[test]
fn addition_laws_downgrade() {
    // any LowerBound or Unknown addend yields a LowerBound of the known parts
    assert_eq!(Max::Exact(3).add(Local::Unknown), Max::LowerBound(3));
    assert_eq!(Max::LowerBound(3).add(Local::Exact(4)), Max::LowerBound(7));
    assert_eq!(Max::Exact(3).add_max(Max::LowerBound(4)), Max::LowerBound(7));
    assert_eq!(Max::LowerBound(3).add_max(Max::LowerBound(4)), Max::LowerBound(7));
}

#[test]
fn max_of_empty_is_none() {
    let empty: Vec<Max> = Vec::new();
    assert_eq!(max_of(empty.as_slice()), None);
}

#[test]
fn max_preserves_weaker_tag() {
    assert_eq!(max(Max::Exact(3), Max::Exact(9)), Max::Exact(9));
    assert_eq!(max(Max::Exact(9), Max::LowerBound(3)), Max::LowerBound(9));
    assert_eq!(max(Max::LowerBound(3), Max::Exact(9)), Max::LowerBound(9));
    let items = vec![Max::Exact(1), Max::LowerBound(2), Max::Exact(5)];
    assert_eq!(max_of(items.as_slice()), Some(Max::LowerBound(5)));
}

#[test]
fn capped_addition_saturates() {
    assert_eq!(
        Max::Exact(u64::MAX).add_max_capped(Max::Exact(1)),
        Max::LowerBound(u64::MAX)
    );
    assert_eq!(Max::Exact(1).add_max_capped(Max::Exact(2)), Max::Exact(3));
}

#[test]
fn is_tag_recognizes_markers() {
    assert!(is_tag("$a"));
    assert!(is_tag("$t"));
    assert!(is_tag("$d"));
    assert!(is_tag("$d.42"));
    assert!(is_tag("$t.0"));
    assert!(!is_tag("$d.x"));
    assert!(!is_tag("$d."));
    assert!(!is_tag("main"));
    assert!(!is_tag("$q.1"));
    // a numeral too large for u64 does not parse
    assert!(!is_tag("$d.99999999999999999999999999"));
}

#[test]
fn parse_u64_mirrors_std() {
    assert_eq!(parse_u64_ok(&['4', '2']), "42".parse::<u64>().is_ok());
    assert_eq!(parse_u64_ok(&['+', '5']), "+5".parse::<u64>().is_ok());
    assert_eq!(parse_u64_ok(&[]), "".parse::<u64>().is_ok());
    assert_eq!(parse_u64_ok(&['+']), "+".parse::<u64>().is_ok());
    assert_eq!(parse_u64_ok(&['-', '1']), "-1".parse::<u64>().is_ok());
    let big: Vec<char> = "18446744073709551615".chars().collect();
    assert_eq!(parse_u64_ok(&big), true);
    let too_big: Vec<char> = "18446744073709551616".chars().collect();
    assert_eq!(parse_u64_ok(&too_big), false);
}

#[test]
fn dehash_strips_trailing_hash() {
    assert_eq!(
        dehash("foo::bar::h0123456789abcdef").as_deref(),
        Some("foo::bar")
    );
    assert_eq!(dehash("foo::bar"), None);
    assert_eq!(dehash("::h0123456789abcdef"), None);
    // a sixteen-character tail that is not hexadecimal is no hash
    assert_eq!(dehash("foo::bar::hZZZZZZZZZZZZZZZZ"), None);
    assert_eq!(dehash("foo::bar::h0123456789abcdeg"), None);
}

#[test]
fn strip_version_mirrors_rsplit() {
    assert_eq!(strip_version("malloc@@GLIBC_2.2.5"), "malloc");
    assert_eq!(strip_version("plain"), "plain");
    assert_eq!(strip_version("a@@b@@c"), "b");
}

#[test]
fn trait_method_key_dissects() {
    assert_eq!(
        trait_method_key("<foo::Bar as core::fmt::Display>::fmt::h0123456789abcdef").as_deref(),
        Some("core::fmt::Display::fmt")
    );
    assert_eq!(trait_method_key("foo::bar::h0123456789abcdef"), None);
    assert_eq!(trait_method_key("<foo::Bar as core::fmt::Display>::fmt"), None);
}

#[test]
fn reconcile_agreement_and_override() {
    // both report the same nonzero frame
    let r = reconcile_local(Local::Exact(16), true, Some(16)).unwrap();
    assert_eq!(r.local, Local::Exact(16));
    assert!(!r.overrode);
    // the compiler's zero is overridden by the disassembler
    let r = reconcile_local(Local::Exact(0), true, Some(24)).unwrap();
    assert_eq!(r.local, Local::Exact(24));
    assert!(r.overrode);
    // no compiler answer: adopt the disassembler's
    let r = reconcile_local(Local::Unknown, true, Some(8)).unwrap();
    assert_eq!(r.local, Local::Exact(8));
    // provably never moves the stack pointer: exactly zero
    let r = reconcile_local(Local::Unknown, false, None).unwrap();
    assert_eq!(r.local, Local::Exact(0));
}

#[test]
fn reconcile_rejects_contradictions() {
    // disassembler contradicts its own flag
    assert_eq!(
        reconcile_local(Local::Exact(8), false, Some(8)),
        Err(ConsistencyViolation::SelfCheck)
    );
    // two nonzero answers that disagree
    assert_eq!(
        reconcile_local(Local::Exact(8), true, Some(16)),
        Err(ConsistencyViolation::SizeMismatch)
    );
    // compiler frame contradicts the stack-pointer flag
    assert_eq!(
        reconcile_local(Local::Exact(8), false, None),
        Err(ConsistencyViolation::SpMismatch)
    );
}

#[test]
fn maybe_guards_access() {
    let m = Maybe::new(7u64, false);
    assert_eq!(*m.get(), 7);
    assert_eq!(m.into_iter(), 7);
}

#[test]
fn target_triples() {
    assert!(Target::from_triple("thumbv6m-none-eabi").is_thumb());
    assert!(Target::from_triple("thumbv7m-none-eabi").is_thumb());
    assert!(Target::from_triple("thumbv7em-none-eabi").is_thumb());
    assert!(Target::from_triple("thumbv7em-none-eabihf").is_thumb());
    assert!(!Target::from_triple("x86_64-unknown-linux-gnu").is_thumb());
}
