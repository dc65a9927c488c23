use fanout::models::{
    BalanceConfig, IdToken, MembershipStatus, NotificationKind, NotificationStatus, SplitStrategy,
};

#[test]
fn balance_config_remembers_its_flag() {
    assert!(BalanceConfig::new(true).is_simplified());
    assert!(!BalanceConfig::new(false).is_simplified());
}

#[test]
fn statuses_compare_structurally() {
    assert_eq!(NotificationStatus::New, NotificationStatus::New);
    assert_ne!(MembershipStatus::Pending, MembershipStatus::Joined);
    assert_eq!(
        NotificationKind::Invite { group_id: 3 },
        NotificationKind::Invite { group_id: 3 }
    );
    assert_ne!(
        NotificationKind::Invite { group_id: 3 },
        NotificationKind::Payment { expense_id: 3 }
    );
}

#[test]
fn domain_objects_carry_their_fields() {
    let token = IdToken { email: "ada@x".to_string(), name: "Ada".to_string() };
    assert_eq!(token.email, "ada@x");
    let split = SplitStrategy::Payment {
        payer: "ada@x".to_string(),
        recipient: "bob@x".to_string(),
    };
    match split {
        SplitStrategy::Payment { payer, recipient } => {
            assert_eq!(payer, "ada@x");
            assert_eq!(recipient, "bob@x");
        },
        _ => panic!("expected a payment"),
    }
}
