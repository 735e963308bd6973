use minigit::common::datetime::{Timestamp, Timezone};
use minigit::common::user::User;
use minigit::reflog::{format_reflog_line, RefLog, RefLogKind};

#[test]
fn user_renders_name_and_email() {
    let user = User { name: String::from("Shuhei"), email: String::from("sh@example.com") };
    assert_eq!(user.render(), "Shuhei <sh@example.com>");
}

#[test]
fn timezone_renders_signed_hhmm() {
    assert_eq!(Timezone::from_sec(32400).render(), "+0900");
    assert_eq!(Timezone::from_sec(-16200).render(), "-0430");
    assert_eq!(Timezone::from_sec(0).render(), "+0000");
    assert_eq!(Timezone::from_sec(3660).render(), "+0101");
    assert_eq!(Timezone::from_sec(86399).render(), "+2359");
    assert_eq!(Timezone::from_sec(-86399).render(), "-2359");
}

#[test]
fn timestamp_renders_epoch_and_offset() {
    let ts = Timestamp::new(1631017871, Timezone::from_sec(32400));
    assert_eq!(ts.render(), "1631017871 +0900");
    let negative = Timestamp::new(-62135596800, Timezone::from_sec(-3600));
    assert_eq!(negative.render(), "-62135596800 -0100");
}

#[test]
fn reflog_kind_tags() {
    assert_eq!(RefLogKind::COMMIT.render(), "commit");
    assert_eq!(RefLogKind::CHECKOUT.render(), "checkout");
}

#[test]
fn reflog_line_layout() {
    let log = RefLog {
        prev_hash: String::from("0000000000000000000000000000000000000000"),
        hash: String::from("335584cfc68b36a5f2332c10b32a0cf6a441cad8"),
        author: String::from("Shuhei"),
        email: String::from("sh7916@example.com"),
        timestamp: 1631017871,
        timezone: 540,
        kind: RefLogKind::COMMIT,
        description: String::from("Initial commit"),
    };
    assert_eq!(
        format_reflog_line(&log),
        "0000000000000000000000000000000000000000 \
         335584cfc68b36a5f2332c10b32a0cf6a441cad8 \
         Shuhei <sh7916@example.com> 1631017871 540    commit: Initial commit"
    );
}

#[test]
fn reflog_line_negative_timezone() {
    let log = RefLog {
        prev_hash: String::from("a"),
        hash: String::from("b"),
        author: String::from("n"),
        email: String::from("e"),
        timestamp: 0,
        timezone: -540,
        kind: RefLogKind::CHECKOUT,
        description: String::from("d"),
    };
    assert_eq!(format_reflog_line(&log), "a b n <e> 0 -540    checkout: d");
}
