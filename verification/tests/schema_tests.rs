use graphite::retention_policy::RetentionPolicy;
use graphite::schema::Schema;
use graphite::WhisperError;

const METADATA_DISK_SIZE: u64 = 16;
const ARCHIVE_INFO_DISK_SIZE: u64 = 12;
const POINT_SIZE: u64 = 12;

#[test]
fn mod_test_size_on_disk() {
    let first_policy = RetentionPolicy {
        precision: 1,
        retention: 60,
    };
    let second_policy = RetentionPolicy {
        precision: 60,
        retention: 60,
    };
    let mut little_schema = Schema {
        retention_policies: vec![],
    };
    let expected = METADATA_DISK_SIZE
        + ARCHIVE_INFO_DISK_SIZE * 2
        + 60 * 12 // first policy size
        + 1 * 12; // second policy size
    little_schema.retention_policies.push(first_policy);
    little_schema.retention_policies.push(second_policy);
    assert_eq!(little_schema.size_on_disk(), expected);
}

#[test]
fn retention_policy_test_size_on_disk() {
    let five_minute_retention = RetentionPolicy {
        precision: 60,    // 1 sample/minute
        retention: 5 * 60, // 5 minutes
    };
    let expected = five_minute_retention.size_on_disk();
    assert_eq!(expected, 5 * POINT_SIZE);
}

#[test]
fn test_spec_without_multipliers() {
    let spec = "15:60";
    let expected = RetentionPolicy {
        precision: 15,
        retention: 15 * 60,
    };
    let retention_opt = RetentionPolicy::spec_to_retention_policy(spec);
    assert!(retention_opt.is_some());
    let retention_policy = retention_opt.unwrap();
    assert_eq!(retention_policy.precision, expected.precision);
    assert_eq!(retention_policy.retention, expected.retention);
}

#[test]
fn test_spec_with_multipliers() {
    let spec = "1d:60y";
    let expected = RetentionPolicy {
        precision: 1 * 60 * 60 * 24,
        retention: 60 * 60 * 60 * 24 * 365,
    };
    let retention_opt = RetentionPolicy::spec_to_retention_policy(spec);
    assert!(retention_opt.is_some());
    let retention_policy = retention_opt.unwrap();
    assert_eq!(retention_policy.precision, expected.precision);
    assert_eq!(retention_policy.retention, expected.retention);
}

#[test]
fn malformed_specs_are_rejected_together() {
    let specs = vec![
        "1m:1h".to_string(),
        "bogus".to_string(),
        "1q:60".to_string(),
    ];
    match Schema::new_from_retention_specs(specs) {
        Err(WhisperError::InvalidRetentionSpec(bad)) => {
            assert_eq!(bad, vec!["bogus".to_string(), "1q:60".to_string()]);
        }
        other => panic!("expected InvalidRetentionSpec, got {:?}", other),
    }
}

#[test]
fn spec_parse_rejects_and_accepts_edges() {
    assert!(RetentionPolicy::spec_to_retention_policy("").is_none());
    assert!(RetentionPolicy::spec_to_retention_policy(":60").is_none());
    assert!(RetentionPolicy::spec_to_retention_policy("15:").is_none());
    assert!(RetentionPolicy::spec_to_retention_policy("m:60").is_none());
    assert!(RetentionPolicy::spec_to_retention_policy("1m1h").is_none());
    assert!(RetentionPolicy::spec_to_retention_policy("99999999999999999999:60").is_none());
    let p = RetentionPolicy::spec_to_retention_policy("10s:14d").unwrap();
    assert_eq!(p.precision, 10);
    assert_eq!(p.retention, 14 * 86400);
}

#[test]
fn schema_max_retention_is_the_largest() {
    let schema = Schema {
        retention_policies: vec![
            RetentionPolicy {
                precision: 1,
                retention: 60,
            },
            RetentionPolicy {
                precision: 60,
                retention: 3600,
            },
        ],
    };
    assert_eq!(schema.max_retention(), 3600);
    let empty = Schema {
        retention_policies: vec![],
    };
    assert_eq!(empty.max_retention(), 0);
}

#[test]
fn schema_usability_checks_layout_bounds() {
    let good = Schema {
        retention_policies: vec![RetentionPolicy {
            precision: 60,
            retention: 3600,
        }],
    };
    assert!(good.is_usable());
    let zero_precision = Schema {
        retention_policies: vec![RetentionPolicy {
            precision: 0,
            retention: 60,
        }],
    };
    assert!(!zero_precision.is_usable());
    let no_slots = Schema {
        retention_policies: vec![RetentionPolicy {
            precision: 60,
            retention: 59,
        }],
    };
    assert!(!no_slots.is_usable());
}

#[test]
fn header_size_counts_descriptors() {
    let schema = Schema {
        retention_policies: vec![
            RetentionPolicy {
                precision: 1,
                retention: 60,
            },
            RetentionPolicy {
                precision: 60,
                retention: 3600,
            },
        ],
    };
    assert_eq!(schema.header_size_on_disk(), 16 + 2 * 12);
}
