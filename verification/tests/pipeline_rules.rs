use nesstar_core::pipeline::sanitize_name;

#[test]
fn test_sanitize_name() {
    assert_eq!(sanitize_name("hh_per_fv_2017-18"), "hh_per_fv_2017_18");
    assert_eq!(sanitize_name("Some (Name) - 1.2"), "some_name_1_2");
    assert_eq!(sanitize_name("___test___"), "test");
    assert_eq!(sanitize_name("abc"), "abc");
}

use nesstar_core::model::{BlockDefinition, SurveyMetadata};
use nesstar_core::pipeline::{
    partial_path, pick_block, pick_block_by_name, ConvertJob, JobAction, JobEvent, OutputFormat,
    PipelineError,
};

fn block(file_id: &str, number: u32, name: &str) -> BlockDefinition {
    BlockDefinition {
        file_id: file_id.into(),
        file_id_number: number,
        name: name.into(),
        row_count: 0,
        variables: vec![],
    }
}

#[test]
fn formats_follow_the_extension() {
    assert_eq!(OutputFormat::from_extension("out/data.CSV"), OutputFormat::Csv);
    assert_eq!(OutputFormat::from_extension("out/data.txt"), OutputFormat::Tsv);
    assert_eq!(OutputFormat::from_extension("out/data.tsv"), OutputFormat::Tsv);
    assert_eq!(OutputFormat::from_extension("data.parquet"), OutputFormat::Parquet);
    assert_eq!(OutputFormat::from_extension("data.Dta"), OutputFormat::Dta);
    assert_eq!(OutputFormat::from_extension("data.sav"), OutputFormat::Spss);
    assert_eq!(OutputFormat::from_extension("data.json"), OutputFormat::Json);
    assert_eq!(OutputFormat::from_extension("data.ndjson"), OutputFormat::Jsonl);
    assert_eq!(OutputFormat::from_extension("data.jsonl"), OutputFormat::Jsonl);
    assert_eq!(OutputFormat::from_extension("data.fwf"), OutputFormat::Fwf);
    assert_eq!(OutputFormat::from_extension("data"), OutputFormat::Csv);
    assert_eq!(OutputFormat::from_extension(".json"), OutputFormat::Csv);
    assert_eq!(OutputFormat::from_extension("dir.json/"), OutputFormat::Json);
    assert_eq!(OutputFormat::from_extension("data.xlsx"), OutputFormat::Csv);
}

#[test]
fn every_format_round_trips_through_its_extension() {
    let all = [
        OutputFormat::Csv,
        OutputFormat::Tsv,
        OutputFormat::Parquet,
        OutputFormat::Dta,
        OutputFormat::Spss,
        OutputFormat::Json,
        OutputFormat::Jsonl,
        OutputFormat::Fwf,
    ];
    for format in all {
        let path = format!("out/file.{}", format.extension().to_ascii_uppercase());
        assert_eq!(OutputFormat::from_extension(&path), format);
    }
    assert_eq!(OutputFormat::Spss.label(), "SPSS (.sav)");
    assert_eq!(OutputFormat::Tsv.label(), "TSV (Tab-separated)");
    assert_eq!(OutputFormat::Jsonl.extension(), "jsonl");
}

#[test]
fn sanitizing_twice_changes_nothing() {
    for name in ["hh_per_fv_2017-18", "Some (Name) - 1.2", "___test___", "--", "Ünïcode name"] {
        let once = sanitize_name(name);
        assert_eq!(sanitize_name(&once), once);
        assert!(once.chars().all(|c| c.is_ascii_lowercase() || c.is_ascii_digit() || c == '_'));
        assert!(!once.starts_with('_') && !once.ends_with('_') && !once.contains("__"));
    }
    assert_eq!(sanitize_name("--"), "");
}

#[test]
fn blocks_are_picked_by_output_name() {
    let metadata = SurveyMetadata {
        blocks: vec![block("F1", 1, "Household Level"), block("F2", 2, "person-level"), block("F3", 3, "x")],
    };
    assert_eq!(pick_block(&metadata, "out/person_level.csv").unwrap().file_id, "F2");
    assert_eq!(pick_block(&metadata, "out/household-level.dta").unwrap().file_id, "F1");
    assert_eq!(pick_block(&metadata, "out/f3.csv").unwrap().file_id, "F3");
    assert_eq!(pick_block(&metadata, "out/survey_F2_export.csv").unwrap().file_id, "F2");
    assert_eq!(pick_block(&metadata, "out/other.csv").unwrap().file_id, "F1");
    assert_eq!(pick_block_by_name(&metadata, "out/f3.csv").unwrap().file_id, "F1");
    assert_eq!(pick_block_by_name(&metadata, "person level.csv").unwrap().file_id, "F2");
    let empty = SurveyMetadata { blocks: vec![] };
    match pick_block(&empty, "a.csv") {
        Err(PipelineError::Failed(m)) => assert_eq!(m, "DDI has no blocks"),
        other => panic!("unexpected {other:?}"),
    }
    assert_eq!(partial_path("out/a.csv"), "out/a.csv.partial");
}

#[test]
fn pipeline_errors_read_like_the_original_messages() {
    assert_eq!(PipelineError::Failed("x".into()).message(), "conversion failed: x");
    assert_eq!(PipelineError::OutputExists("a.csv".into()).message(), "output already exists: a.csv");
}

fn run(job: ConvertJob, events: Vec<JobEvent>) -> Vec<String> {
    let mut job = job;
    let mut seen = Vec::new();
    for event in events {
        assert!(job.expects(&event));
        let (next, action) = job.step(event);
        seen.push(format!("{action:?}"));
        job = next;
    }
    seen
}

#[test]
fn a_job_publishes_only_after_every_batch() {
    let (job, first) = ConvertJob::new("out.csv".into(), false, 2);
    assert!(matches!(first, JobAction::CheckOutput));
    let seen = run(
        job,
        vec![
            JobEvent::OutputChecked { exists: false },
            JobEvent::Prepared(Ok(5)),
            JobEvent::BatchDone(Ok(())),
            JobEvent::BatchDone(Ok(())),
            JobEvent::BatchDone(Ok(())),
            JobEvent::WriterFinished(Ok(())),
            JobEvent::Published(Ok(())),
        ],
    );
    assert_eq!(
        seen,
        [
            "Prepare",
            "WriteBatch { start: 0, count: 2 }",
            "WriteBatch { start: 2, count: 2 }",
            "WriteBatch { start: 4, count: 1 }",
            "FinishWriter",
            "Publish",
            "Stop(Ok(()))",
        ]
    );
}

#[test]
fn a_job_removes_its_unfinished_file_on_failure() {
    let (job, _) = ConvertJob::new("out.csv".into(), false, 0);
    let seen = run(
        job,
        vec![
            JobEvent::OutputChecked { exists: false },
            JobEvent::Prepared(Ok(3)),
            JobEvent::BatchDone(Ok(())),
            JobEvent::Cancelled,
            JobEvent::Discarded,
        ],
    );
    assert_eq!(
        seen,
        [
            "Prepare",
            "WriteBatch { start: 0, count: 1 }",
            "WriteBatch { start: 1, count: 1 }",
            "Discard",
            "Stop(Err(Failed(\"decode cancelled\")))",
        ]
    );
    let (existing, _) = ConvertJob::new("out.csv".into(), false, 10);
    let seen = run(existing, vec![JobEvent::OutputChecked { exists: true }]);
    assert_eq!(seen, ["Stop(Err(OutputExists(\"out.csv\")))"]);
    let (empty, _) = ConvertJob::new("out.csv".into(), false, 10);
    let seen = run(
        empty,
        vec![
            JobEvent::OutputChecked { exists: false },
            JobEvent::Prepared(Ok(0)),
            JobEvent::WriterFinished(Err("disk full".into())),
            JobEvent::Discarded,
        ],
    );
    assert_eq!(seen, ["Prepare", "FinishWriter", "Discard", "Stop(Err(Failed(\"disk full\")))"]);
}

#[test]
fn a_direct_job_stops_without_publishing_or_removing() {
    let (job, _) = ConvertJob::new("out.parquet".into(), true, 100);
    let seen = run(
        job,
        vec![
            JobEvent::OutputChecked { exists: false },
            JobEvent::Prepared(Ok(1)),
            JobEvent::BatchDone(Err("decode `X`: invalid value width 0".into())),
        ],
    );
    assert_eq!(
        seen,
        ["Prepare", "WriteBatch { start: 0, count: 1 }", "Stop(Err(Failed(\"decode `X`: invalid value width 0\")))"]
    );
    let (failing, _) = ConvertJob::new("out.parquet".into(), true, 100);
    let seen = run(
        failing,
        vec![JobEvent::OutputChecked { exists: false }, JobEvent::Prepared(Err("no DDI".into()))],
    );
    assert_eq!(seen, ["Prepare", "Stop(Err(Failed(\"no DDI\")))"]);
}
