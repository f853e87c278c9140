use shodan_pipeline::executor::{plan_job, BatchExecutor, JobPlan};
use shodan_pipeline::models::HostReport;

fn report_for(ip: &str) -> HostReport {
    HostReport { target: ip.to_string(), ip: ip.to_string(), ports: Vec::new() }
}

#[test]
fn resume_mode_with_artifact_never_scans() {
    assert!(plan_job(true, true) == JobPlan::UseCached);
    assert!(plan_job(true, false) == JobPlan::RunScan);
    assert!(plan_job(false, true) == JobPlan::RunScan);
    assert!(plan_job(false, false) == JobPlan::RunScan);
}

#[test]
fn reports_keep_input_order_under_jittered_completions() {
    let ips = ["a", "b", "c", "d", "e"];
    let mut exec = BatchExecutor::new(5, 2);
    let j0 = exec.start_next().unwrap();
    let j1 = exec.start_next().unwrap();
    assert!(exec.start_next().is_none(), "the in-flight bound must hold");
    exec.complete(j1, report_for(ips[j1]));
    let j2 = exec.start_next().unwrap();
    exec.complete(j0, report_for(ips[j0]));
    let j3 = exec.start_next().unwrap();
    exec.complete(j3, report_for(ips[j3]));
    let j4 = exec.start_next().unwrap();
    exec.complete(j2, report_for(ips[j2]));
    exec.complete(j4, report_for(ips[j4]));
    assert!(exec.is_done());
    let reports = exec.into_reports();
    assert_eq!(reports.len(), 5);
    for (k, rep) in reports.iter().enumerate() {
        assert_eq!(rep.ip, ips[k]);
    }
}

#[test]
fn another_completion_order_same_reports() {
    let ips = ["a", "b", "c"];
    let mut exec = BatchExecutor::new(3, 3);
    let j0 = exec.start_next().unwrap();
    let j1 = exec.start_next().unwrap();
    let j2 = exec.start_next().unwrap();
    exec.complete(j2, report_for(ips[j2]));
    exec.complete(j0, report_for(ips[j0]));
    exec.complete(j1, report_for(ips[j1]));
    assert!(exec.is_done());
    let reports = exec.into_reports();
    let got: Vec<&str> = reports.iter().map(|r| r.ip.as_str()).collect();
    assert_eq!(got, vec!["a", "b", "c"]);
}
