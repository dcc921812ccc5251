use quantabeta::worm::{FactorArtifact, FactorLedger};

fn s(x: &str) -> String {
    x.to_string()
}

#[test]
fn test_worm_chain_integrity() {
    let mut ledger = FactorLedger::new();
    let a1 = FactorArtifact::new(
        s("QB-HECKE-VOL-0001"), s("Hecke_T11_Weight2"),
        s("0xproof1"), s("0xcode1"), s("1.82"), s("1.91"), s("4523000"),
        s("0xentropy1"), s("Ahmad_Ali_Parr"), None,
    );
    ledger.append(a1);
    let a2 = FactorArtifact::new(
        s("QB-PARTITION-VOL-0002"), s("Ramanujan_p5k4_Congruence"),
        s("0xproof2"), s("0xcode2"), s("1.65"), s("1.73"), s("3100000"),
        s("0xentropy2"), s("Ahmad_Ali_Parr"), None,
    );
    ledger.append(a2);
    assert!(ledger.verify_chain());
    assert_eq!(ledger.len(), 2);
}

fn first() -> FactorArtifact {
    FactorArtifact::new_at(
        s("QB-1"), s("inv"), s("0xp"), s("0xc"), s("1.5"), s("1.6"), s("42"), s("0xe"), s("op"),
        1700000000, None,
    )
}

fn second() -> FactorArtifact {
    FactorArtifact::new_at(
        s("QB-2"), s("inv2"), s("0xp2"), s("0xc2"), s("0.1"), s("0.2"), s("7"), s("0xe2"), s("op"),
        1700000001, None,
    )
}

#[test]
fn genesis_seal_exact() {
    let a = first();
    assert_eq!(a.previous_seal, None);
    assert_eq!(a.seal, "7a1995bd37a5bd7a2a58df180111fffb5915917720530b66f959a37f9f149e6c");
}

#[test]
fn append_links_and_reseals() {
    let mut ledger = FactorLedger::new();
    let stored = ledger.append(first()).clone();
    assert_eq!(stored.seal, "7a1995bd37a5bd7a2a58df180111fffb5915917720530b66f959a37f9f149e6c");
    let second_stored = ledger.append(second()).clone();
    assert_eq!(second_stored.previous_seal, Some(stored.seal.clone()));
    assert_eq!(second_stored.seal, "6375e7b6b3b5052f42a34ad90272077330952b6b9a152afbf9b0458b3157df7c");
    assert_eq!(ledger.entries().len(), 2);
    assert_eq!(ledger.entries()[0].seal, stored.seal);
    assert!(ledger.verify_chain());
}

#[test]
fn first_entry_keeps_its_previous_seal_and_chain_verifies() {
    let mut ledger = FactorLedger::new();
    // the first entry keeps whatever previous seal it was made with
    let mut a = first();
    a.previous_seal = Some(s("elsewhere"));
    ledger.append(a);
    ledger.append(second());
    assert!(ledger.verify_chain());
    assert_eq!(ledger.entries()[0].previous_seal, Some(s("elsewhere")));
    let empty = FactorLedger::new();
    assert!(empty.verify_chain());
    assert_eq!(empty.len(), 0);
}
