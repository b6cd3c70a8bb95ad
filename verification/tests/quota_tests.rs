use whereami::quota::{calls_today, count_text, plan_refund, plan_reservation};

/// The two metadata values the quota reads and writes.
struct Meta {
    date: Option<String>,
    count: Option<String>,
}

impl Meta {
    fn reserve(&mut self, today: &str, limit: u32) -> bool {
        let r = plan_reservation(self.date.as_deref(), self.count.as_deref(), today, limit);
        if r.reset_date {
            self.date = Some(today.to_string());
        }
        self.count = Some(count_text(r.count));
        r.reserved
    }

    fn refund(&mut self, today: &str) {
        if let Some(n) = plan_refund(self.date.as_deref(), self.count.as_deref(), today) {
            self.count = Some(count_text(n));
        }
    }

    fn today(&self) -> u32 {
        calls_today(self.count.as_deref())
    }
}

#[test]
fn test_rate_limiting() {
    let day = "2026-05-10";
    let mut db = Meta { date: None, count: None };
    assert_eq!(db.today(), 0);

    // First reservation under generous limit succeeds.
    assert!(db.reserve(day, 100));
    assert_eq!(db.today(), 1);

    // Limit-of-1 path: already at 1, so further reservation denied.
    assert!(!db.reserve(day, 1));
    // Counter unchanged after a denied reservation.
    assert_eq!(db.today(), 1);

    // Limit-of-2 path: still room for one more.
    assert!(db.reserve(day, 2));
    assert_eq!(db.today(), 2);

    // Refund returns the slot.
    db.refund(day);
    assert_eq!(db.today(), 1);

    // Refund clamps at 0.
    db.refund(day);
    db.refund(day);
    assert_eq!(db.today(), 0);
}

#[test]
fn sequential_reservations_never_exceed_the_limit() {
    let mut db = Meta { date: None, count: None };
    let granted = (0..64).filter(|_| db.reserve("2026-05-10", 10)).count();
    assert_eq!(granted, 10, "total reservations must equal daily_limit");
    assert_eq!(db.today(), 10);
}

#[test]
fn a_new_day_resets_the_counter() {
    let mut db = Meta { date: Some("2026-05-09".to_string()), count: Some("100".to_string()) };
    assert!(db.reserve("2026-05-10", 100));
    assert_eq!(db.date.as_deref(), Some("2026-05-10"));
    assert_eq!(db.today(), 1);
    // A refund after the day rolled over changes nothing.
    let mut old = Meta { date: Some("2026-05-09".to_string()), count: Some("5".to_string()) };
    old.refund("2026-05-10");
    assert_eq!(old.count.as_deref(), Some("5"));
}

#[test]
fn unreadable_counts_read_as_zero() {
    assert_eq!(calls_today(Some("abc")), 0);
    assert_eq!(calls_today(Some("-1")), 0);
    assert_eq!(calls_today(Some("+7")), 7);
    assert_eq!(calls_today(Some("4294967296")), 0);
    assert_eq!(calls_today(Some("4294967295")), u32::MAX);
    assert_eq!(count_text(0), "0");
    assert_eq!(count_text(4_294_967_295), "4294967295");
}
