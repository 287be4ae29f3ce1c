use azure_data_cosmos::{Error, Lsn, RegionId, VectorSessionToken};

#[test]
fn parse_minimal_token() {
    let token_str = "1#1000";
    let token: VectorSessionToken = token_str.parse().unwrap();

    assert_eq!(token.version, 1);
    assert_eq!(token.global_lsn, Lsn::new(1000));
    assert!(token.regional_lsns.is_empty());
}

#[test]
fn parse_token_with_single_region() {
    let token_str = "2#2000#100=1500";
    let token: VectorSessionToken = token_str.parse().unwrap();

    assert_eq!(token.version, 2);
    assert_eq!(token.global_lsn, Lsn::new(2000));
    assert_eq!(token.regional_lsns.len(), 1);
    assert_eq!(token.regional_lsn(RegionId::new(100)), Some(Lsn::new(1500)));
}

#[test]
fn parse_token_with_multiple_regions() {
    let token_str = "3#3000#100=1500#200=2500#300=3500";
    let token: VectorSessionToken = token_str.parse().unwrap();

    assert_eq!(token.version, 3);
    assert_eq!(token.global_lsn, Lsn::new(3000));
    assert_eq!(token.regional_lsns.len(), 3);
    assert_eq!(token.regional_lsn(RegionId::new(100)), Some(Lsn::new(1500)));
    assert_eq!(token.regional_lsn(RegionId::new(200)), Some(Lsn::new(2500)));
    assert_eq!(token.regional_lsn(RegionId::new(300)), Some(Lsn::new(3500)));
}

#[test]
fn vector_parse_empty_string_fails() {
    let result: Result<VectorSessionToken, _> = "".parse();
    assert_eq!(result.unwrap_err(), Error::EmptyInput);
}

#[test]
fn parse_missing_global_lsn_fails() {
    let result: Result<VectorSessionToken, _> = "1".parse();
    assert_eq!(result.unwrap_err(), Error::MissingComponents);
}

#[test]
fn parse_missing_version_fails() {
    let result: Result<VectorSessionToken, _> = "#1000".parse();
    assert_eq!(result.unwrap_err(), Error::InvalidVersion("".to_string()));
}

#[test]
fn parse_invalid_version_fails() {
    let result: Result<VectorSessionToken, _> = "not_a_number#1000".parse();
    assert_eq!(
        result.unwrap_err(),
        Error::InvalidVersion("not_a_number".to_string())
    );
}

#[test]
fn parse_invalid_global_lsn_fails() {
    let result: Result<VectorSessionToken, _> = "1#not_a_number".parse();
    assert_eq!(
        result.unwrap_err(),
        Error::InvalidGlobalLsn("not_a_number".to_string())
    );
}

#[test]
fn parse_invalid_region_id_fails() {
    let result: Result<VectorSessionToken, _> = "1#1000#not_a_number=1500".parse();
    assert_eq!(
        result.unwrap_err(),
        Error::InvalidRegionId("not_a_number".to_string())
    );
}

#[test]
fn parse_invalid_region_lsn_fails() {
    let result: Result<VectorSessionToken, _> = "1#1000#100=not_a_number".parse();
    assert_eq!(
        result.unwrap_err(),
        Error::InvalidRegionLsn("not_a_number".to_string())
    );
}

#[test]
fn parse_malformed_region_pair_fails() {
    let result: Result<VectorSessionToken, _> = "1#1000#100".parse();
    assert_eq!(
        result.unwrap_err(),
        Error::MalformedRegionalComponent("100".to_string())
    );

    let result: Result<VectorSessionToken, _> = "1#1000#100=".parse();
    assert_eq!(
        result.unwrap_err(),
        Error::MalformedRegionalComponent("100=".to_string())
    );

    let result: Result<VectorSessionToken, _> = "1#1000#=1500".parse();
    assert_eq!(
        result.unwrap_err(),
        Error::MalformedRegionalComponent("=1500".to_string())
    );
}

#[test]
fn parse_version_overflow_fails() {
    let result: Result<VectorSessionToken, _> = "18446744073709551616#1000".parse();
    assert_eq!(
        result.unwrap_err(),
        Error::InvalidVersion("18446744073709551616".to_string())
    );
}

#[test]
fn parse_global_lsn_overflow_fails() {
    let result: Result<VectorSessionToken, _> = "1#18446744073709551616".parse();
    assert_eq!(
        result.unwrap_err(),
        Error::InvalidGlobalLsn("18446744073709551616".to_string())
    );
}

#[test]
fn parse_region_id_overflow_fails() {
    let result: Result<VectorSessionToken, _> = "1#1000#4294967296=1500".parse();
    assert_eq!(
        result.unwrap_err(),
        Error::InvalidRegionId("4294967296".to_string())
    );
}

#[test]
fn parse_region_lsn_overflow_fails() {
    let result: Result<VectorSessionToken, _> = "1#1000#100=18446744073709551616".parse();
    assert_eq!(
        result.unwrap_err(),
        Error::InvalidRegionLsn("18446744073709551616".to_string())
    );
}

#[test]
fn parse_duplicate_region_ids() {
    let token_str = "1#1000#100=1500#100=2500";
    let token: VectorSessionToken = token_str.parse().unwrap();

    assert_eq!(token.version, 1);
    assert_eq!(token.global_lsn, Lsn::new(1000));
    assert_eq!(token.regional_lsns.len(), 1);
    assert_eq!(token.regional_lsn(RegionId::new(100)), Some(Lsn::new(2500)));
}

#[test]
fn display_minimal_token() {
    let token = VectorSessionToken {
        version: 1,
        global_lsn: Lsn::new(1000),
        regional_lsns: Vec::new(),
    };

    assert_eq!(token.to_string(), "1#1000");
}

#[test]
fn display_token_with_regions() {
    let regional_lsns = vec![
        (RegionId::new(100), Lsn::new(1500)),
        (RegionId::new(200), Lsn::new(2500)),
    ];

    let token = VectorSessionToken {
        version: 2,
        global_lsn: Lsn::new(2000),
        regional_lsns,
    };

    let result = token.to_string();
    assert!(result.starts_with("2#2000"));
    assert!(result.contains("100=1500"));
    assert!(result.contains("200=2500"));
}

#[test]
fn vector_roundtrip_parsing() {
    let text = "3#3000#100=1500#200=2500";
    let token: VectorSessionToken = text.parse().unwrap();
    let regenerated = token.to_string();
    let reparsed: VectorSessionToken = regenerated.parse().unwrap();

    assert_eq!(token, reparsed);
}

#[test]
fn can_advance_to_higher_version_can_advance_to() {
    let current: VectorSessionToken = "1#1000".parse().unwrap();
    let other: VectorSessionToken = "2#500".parse().unwrap();

    assert!(current.can_advance_to(&other).unwrap());
}

#[test]
fn can_advance_to_same_version_higher_global_lsn_can_advance_to() {
    let current: VectorSessionToken = "1#1000".parse().unwrap();
    let other: VectorSessionToken = "1#2000".parse().unwrap();

    assert!(current.can_advance_to(&other).unwrap());
}

#[test]
fn can_advance_to_same_version_lower_global_lsn_is_invalid() {
    let current: VectorSessionToken = "1#2000".parse().unwrap();
    let other: VectorSessionToken = "1#1000".parse().unwrap();

    assert!(!current.can_advance_to(&other).unwrap());
}

#[test]
fn cannot_advance_to_lower_version() {
    let current: VectorSessionToken = "2#1000".parse().unwrap();
    let other: VectorSessionToken = "1#2000".parse().unwrap();

    assert!(!current.can_advance_to(&other).unwrap());
}

#[test]
fn can_advance_to_regional_lsn_progression() {
    let current: VectorSessionToken = "1#1000#100=500".parse().unwrap();
    let other: VectorSessionToken = "1#1000#100=1000".parse().unwrap();

    assert!(current.can_advance_to(&other).unwrap());
}

#[test]
fn cannot_advance_to_regional_lsn_regression() {
    let current: VectorSessionToken = "1#1000#100=1000".parse().unwrap();
    let other: VectorSessionToken = "1#1000#100=500".parse().unwrap();

    assert!(!current.can_advance_to(&other).unwrap());
}

#[test]
fn can_advance_to_same_version_different_region_count_fails() {
    let current: VectorSessionToken = "1#1000#100=500".parse().unwrap();
    let other: VectorSessionToken = "1#1000#100=500#200=600".parse().unwrap();

    let result = current.can_advance_to(&other);
    assert!(result.is_err());

    assert!(matches!(result.unwrap_err(), Error::InvalidRegions { .. }));
}

#[test]
fn can_advance_to_same_version_missing_region_in_current_fails() {
    let current: VectorSessionToken = "1#1000#100=500".parse().unwrap();
    let other: VectorSessionToken = "1#1000#100=500#200=600".parse().unwrap();

    let result = current.can_advance_to(&other);
    assert!(result.is_err());
    assert!(matches!(result.unwrap_err(), Error::InvalidRegions { .. }));
}

#[test]
fn can_advance_to_same_version_missing_region_in_other_fails() {
    let current: VectorSessionToken = "1#1000#100=500#200=600".parse().unwrap();
    let other: VectorSessionToken = "1#1000#100=500".parse().unwrap();

    let result = current.can_advance_to(&other);
    assert!(result.is_err());
    assert!(matches!(result.unwrap_err(), Error::InvalidRegions { .. }));
}

#[test]
fn can_advance_to_different_version_missing_region_is_allowed() {
    let current: VectorSessionToken = "1#1000#100=500".parse().unwrap();
    let other: VectorSessionToken = "2#1000#100=500#200=600".parse().unwrap();

    // A higher version advances whatever its regions are.
    assert!(current.can_advance_to(&other).unwrap());
}

#[test]
fn merge_same_version_takes_max_values() {
    let token1: VectorSessionToken = "2#1000#100=500#200=600".parse().unwrap();
    let token2: VectorSessionToken = "2#1200#100=800#200=400".parse().unwrap();

    let merged = token1.merge(token2).unwrap();

    assert_eq!(merged.version, 2);
    assert_eq!(merged.global_lsn, Lsn::new(1200));
    assert_eq!(merged.regional_lsn(RegionId::new(100)), Some(Lsn::new(800)));
    assert_eq!(merged.regional_lsn(RegionId::new(200)), Some(Lsn::new(600)));
}

#[test]
fn merge_different_versions_takes_higher_version() {
    let token1: VectorSessionToken = "1#2000#100=1000".parse().unwrap();
    let token2: VectorSessionToken = "2#1000#100=500".parse().unwrap();

    let merged = token1.merge(token2).unwrap();

    assert_eq!(merged.version, 2);
    assert_eq!(merged.global_lsn, Lsn::new(1000));
    assert_eq!(merged.regional_lsn(RegionId::new(100)), Some(Lsn::new(1000)));
}

#[test]
fn merge_is_commutative() {
    let token1: VectorSessionToken = "2#1000#100=500#200=600".parse().unwrap();
    let token2: VectorSessionToken = "2#1200#100=800#200=400".parse().unwrap();

    let merged1 = token1.clone().merge(token2.clone()).unwrap();
    let merged2 = token2.merge(token1).unwrap();

    assert_eq!(merged1, merged2);
}

#[test]
fn merge_no_regions() {
    let token1: VectorSessionToken = "1#1000".parse().unwrap();
    let token2: VectorSessionToken = "1#1200".parse().unwrap();

    let merged = token1.merge(token2).unwrap();

    assert_eq!(merged.version, 1);
    assert_eq!(merged.global_lsn, Lsn::new(1200));
    assert!(merged.regional_lsns.is_empty());
}

#[test]
fn merge_one_token_dominates() {
    let token1: VectorSessionToken = "2#2000#100=1000#200=800".parse().unwrap();
    let token2: VectorSessionToken = "2#1000#100=500#200=600".parse().unwrap();

    let merged = token1.clone().merge(token2).unwrap();

    assert_eq!(merged, token1);
}

#[test]
fn merge_different_version_missing_regions_allowed() {
    let token1: VectorSessionToken = "1#1000#100=500".parse().unwrap();
    let token2: VectorSessionToken = "2#1200#100=800#200=600".parse().unwrap();

    let merged = token1.merge(token2).unwrap();

    assert_eq!(merged.version, 2);
    assert_eq!(merged.global_lsn, Lsn::new(1200));
    assert_eq!(merged.regional_lsns.len(), 2);
    assert_eq!(merged.regional_lsn(RegionId::new(100)), Some(Lsn::new(800)));
    assert_eq!(merged.regional_lsn(RegionId::new(200)), Some(Lsn::new(600)));
}

#[test]
fn merge_same_version_incompatible_regions_fails() {
    let token1: VectorSessionToken = "2#1000#100=500".parse().unwrap();
    let token2: VectorSessionToken = "2#1200#200=600".parse().unwrap();

    let result = token1.merge(token2);

    assert!(result.is_err());
    match result.unwrap_err() {
        Error::TokensCannotBeMerged(reason) => {
            assert!(reason.contains("same version"));
            assert!(reason.contains("different regions"));
        }
        other => panic!("Expected TokensCannotBeMerged error, got: {:?}", other),
    }
}

// Further cases.

#[test]
fn advance_is_not_symmetric() {
    let a: VectorSessionToken = "1#2000".parse().unwrap();
    let b: VectorSessionToken = "1#1000".parse().unwrap();
    assert_eq!(a.can_advance_to(&b), Ok(false));
    assert_eq!(b.can_advance_to(&a), Ok(true));
}

#[test]
fn region_mismatch_fails_merge_and_advance() {
    let current: VectorSessionToken = "2#1000#100=500".parse().unwrap();
    let other: VectorSessionToken = "2#1200#200=600".parse().unwrap();
    assert_eq!(
        current.can_advance_to(&other),
        Err(Error::InvalidRegions {
            current: "2#1000#100=500".to_string(),
            other: "2#1200#200=600".to_string(),
        })
    );
    assert_eq!(
        current.merge(other),
        Err(Error::TokensCannotBeMerged(
            "tokens have same version but different regions".to_string()
        ))
    );
}

#[test]
fn merge_dominates_both_inputs() {
    let a: VectorSessionToken = "3#10#1=5#2=9".parse().unwrap();
    let b: VectorSessionToken = "3#12#2=4#1=7".parse().unwrap();
    let m = a.clone().merge(b.clone()).unwrap();
    assert_eq!(m.to_string(), "3#12#1=7#2=9");
    assert_eq!(a.can_advance_to(&m), Ok(true));
    assert_eq!(b.can_advance_to(&m), Ok(true));
    assert_eq!(b.clone().merge(a.clone()), Ok(m));
}

#[test]
fn format_lists_regions_in_id_order() {
    let token: VectorSessionToken = "5#7#30=3#10=1#20=2".parse().unwrap();
    assert_eq!(token.to_string(), "5#7#10=1#20=2#30=3");
    let again: VectorSessionToken = token.to_string().parse().unwrap();
    assert_eq!(again, token);
}

#[test]
fn format_of_zero_and_largest_values() {
    let token: VectorSessionToken = "0#18446744073709551615#4294967295=0".parse().unwrap();
    assert_eq!(token.version, 0);
    assert_eq!(token.global_lsn, Lsn::new(u64::MAX));
    assert_eq!(token.regional_lsn(RegionId::new(u32::MAX)), Some(Lsn::new(0)));
    assert_eq!(token.to_string(), "0#18446744073709551615#4294967295=0");
}

#[test]
fn parse_empty_global_lsn_fails() {
    let result: Result<VectorSessionToken, _> = "1#".parse();
    assert_eq!(result.unwrap_err(), Error::MissingComponents);
    let result: Result<VectorSessionToken, _> = "1##5=6".parse();
    assert_eq!(result.unwrap_err(), Error::MissingComponents);
}

#[test]
fn parse_trailing_hash_is_ignored() {
    let token: VectorSessionToken = "1#2#3=4#".parse().unwrap();
    assert_eq!(token.to_string(), "1#2#3=4");
    let result: Result<VectorSessionToken, _> = "1#2##3=4".parse();
    assert_eq!(
        result.unwrap_err(),
        Error::MalformedRegionalComponent("".to_string())
    );
}

#[test]
fn region_lsn_with_second_equals_fails() {
    let result: Result<VectorSessionToken, _> = "1#2#3=4=5".parse();
    assert_eq!(result.unwrap_err(), Error::InvalidRegionLsn("4=5".to_string()));
}

#[test]
fn error_messages() {
    assert_eq!(Error::EmptyInput.to_string(), "input string is empty");
    assert_eq!(
        Error::InvalidVersion("x".to_string()).to_string(),
        "invalid version: 'x'"
    );
    assert_eq!(
        Error::InvalidRegions {
            current: "1#1".to_string(),
            other: "1#2".to_string()
        }
        .to_string(),
        "invalid regions in session token comparison: current='1#1', other='1#2'"
    );
    assert_eq!(
        Error::TokensCannotBeMerged("r".to_string()).to_string(),
        "incompatible tokens: r"
    );
}
