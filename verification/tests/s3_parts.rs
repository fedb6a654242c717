use wings_core::s3plan::{plan_parts, upload_attempt_decision, RetryDecision};

#[test]
fn parts_tile_the_file() {
    let size: u64 = 10 * 1024 * 1024;
    let part: u64 = 4 * 1024 * 1024;
    let (parts, rem) = plan_parts(size, part, 3);
    assert_eq!(rem, 0);
    assert_eq!(parts.len(), 3);
    assert_eq!(parts[0], (0, part));
    assert_eq!(parts[1], (part, part));
    assert_eq!(parts[2], (2 * part, 2 * 1024 * 1024));
    let sum: u64 = parts.iter().map(|p| p.1).sum();
    assert_eq!(sum, size);
}

#[test]
fn too_few_urls_leave_a_remainder() {
    let (parts, rem) = plan_parts(10, 4, 2);
    assert_eq!(parts, vec![(0, 4), (4, 4)]);
    assert_eq!(rem, 2);
}

#[test]
fn extra_urls_get_empty_parts() {
    let (parts, rem) = plan_parts(4, 4, 2);
    assert_eq!(parts, vec![(0, 4), (4, 0)]);
    assert_eq!(rem, 0);
}

#[test]
fn retry_policy() {
    // a 2xx answer records the etag
    assert_eq!(upload_attempt_decision(1, true, true), RetryDecision::RecordEtag);
    // a non-2xx answer retries at once
    assert_eq!(upload_attempt_decision(1, true, false), RetryDecision::RetryNow);
    // a connection error backs off two seconds per attempt made
    assert_eq!(
        upload_attempt_decision(3, false, false),
        RetryDecision::RetryAfterSecs(6)
    );
    // the fifty-first attempt aborts the backup
    assert_eq!(upload_attempt_decision(51, true, true), RetryDecision::Abort);
}

#[test]
fn retry_scenario_three_parts_with_503s() {
    // 10 MiB at 4 MiB parts: three parts; the second gets 503 twice, then
    // 200; every etag is recorded only on a 2xx, and the total attempts
    // stay within bounds
    let (parts, rem) = plan_parts(10 * 1024 * 1024, 4 * 1024 * 1024, 3);
    assert_eq!(rem, 0);
    let mut attempts_total = 0u64;
    let mut etags: Vec<String> = Vec::new();
    for (i, _) in parts.iter().enumerate() {
        let mut attempts = 0u64;
        loop {
            attempts += 1;
            attempts_total += 1;
            // the peer answers 503 on the second part's first two tries
            let ok = !(i == 1 && attempts <= 2);
            match upload_attempt_decision(attempts, true, ok) {
                RetryDecision::RecordEtag => {
                    etags.push(format!("etag-{}", i + 1));
                    break;
                }
                RetryDecision::RetryNow => continue,
                RetryDecision::RetryAfterSecs(_) => continue,
                RetryDecision::Abort => panic!("gave up"),
            }
        }
    }
    assert_eq!(etags.len(), 3);
    assert!(etags.iter().all(|e| !e.is_empty()));
    assert!(attempts_total <= 6);

    let backup = wings_core::backup::s3_backup_result(
        "00".repeat(20),
        10 * 1024 * 1024,
        &etags,
    );
    assert_eq!(backup.size, 10_485_760);
    assert_eq!(backup.parts.len(), 3);
    assert_eq!(backup.parts[0].part_number, 1);
    assert_eq!(backup.parts[2].part_number, 3);
    assert_eq!(backup.parts[1].etag, "etag-2");
    assert!(backup.successful);
}
