use crawl::supervisor::{JobStatus, StartError, Supervisor};

#[test]
fn second_start_is_already_active() {
    let mut s = Supervisor::new();
    assert_eq!(s.start("a").unwrap().as_str(), "http://a/");
    assert_eq!(s.start("a").unwrap_err(), StartError::AlreadyActive);
    assert_eq!(s.running_keys(), vec![String::from("a")]);
}

#[test]
fn stop_before_completion_removes_job() {
    let mut s = Supervisor::new();
    assert!(s.start("a").is_ok());
    assert!(s.stop("a"));
    assert!(!s.stop("a"));
    assert_eq!(s.running_keys().len(), 0);
    assert_eq!(s.list(&vec![]), "");
}

#[test]
fn list_reports_pending_jobs() {
    let mut s = Supervisor::new();
    assert!(s.start("a").is_ok());
    assert!(s.start("b.org").is_ok());
    assert_eq!(
        s.list(&vec![JobStatus::Pending, JobStatus::Pending]),
        "a is still being processed\nb.org is still being processed\n"
    );
    assert_eq!(s.running_keys().len(), 2);
}

#[test]
fn finished_job_moves_to_completed() {
    let mut s = Supervisor::new();
    assert!(s.start("a").is_ok());
    assert!(s.start("b").is_ok());
    let reply = s.list(&vec![
        JobStatus::Pending,
        JobStatus::Finished(String::from("http://b/\n")),
    ]);
    assert_eq!(reply, "a is still being processed\nhttp://b/\n");
    assert_eq!(s.running_keys(), vec![String::from("a")]);
    assert_eq!(s.start("b").unwrap_err(), StartError::AlreadyActive);
    // Finished renderings stay in every later listing.
    let reply = s.list(&vec![JobStatus::Finished(String::from("http://a/\n"))]);
    assert_eq!(reply, "http://b/\nhttp://a/\n");
    assert_eq!(s.list(&vec![]), "http://b/\nhttp://a/\n");
}

#[test]
fn failed_job_is_dropped() {
    let mut s = Supervisor::new();
    assert!(s.start("a").is_ok());
    assert_eq!(s.list(&vec![JobStatus::Failed]), "");
    assert_eq!(s.running_keys().len(), 0);
    assert!(s.start("a").is_ok());
}

#[test]
fn invalid_site_is_not_started() {
    let mut s = Supervisor::new();
    assert_eq!(s.start("").unwrap_err(), StartError::InvalidUrl);
    assert_eq!(s.running_keys().len(), 0);
}

#[test]
fn stop_of_unknown_key() {
    let mut s = Supervisor::new();
    assert!(!s.stop("nothing"));
}
