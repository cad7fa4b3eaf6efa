use inference_sim::text::split_lines;
use inference_sim::trace::{
    append_record, default_concurrency, read_trace, validate_record, write_trace, ItlContext,
    ItlSummary, Millis, TraceError, TraceMeta, TraceRecord,
};
use serde_json::Value;

fn ms(value: f64) -> Millis {
    Millis { bits: value.to_bits() }
}

fn from_ms(value: Millis) -> Value {
    Value::from(f64::from_bits(value.bits))
}

fn count(object: &serde_json::Map<String, Value>, key: &str) -> Option<usize> {
    object.get(key)?.as_u64().map(|n| n as usize)
}

fn list<T>(value: &Value, item: impl Fn(&Value) -> Option<T>) -> Option<Vec<T>> {
    value.as_array()?.iter().map(item).collect()
}

fn small(value: &Value) -> Option<u32> {
    value.as_u64().map(|n| n as u32)
}

/// Turns one line's JSON into a record.
fn parse_record(text: &str) -> Result<TraceRecord, String> {
    let value: Value = serde_json::from_str(text).map_err(|error| error.to_string())?;
    record_of(&value).ok_or("no record".to_string())
}

fn record_of(value: &Value) -> Option<TraceRecord> {
    let object = value.as_object()?;
    let mut record = TraceRecord {
        prompt_tokens: count(object, "prompt_tokens")?,
        output_tokens: count(object, "output_tokens")?,
        ttft_ms: ms(object.get("ttft_ms")?.as_f64()?),
        ..Default::default()
    };
    if let Some(cached) = count(object, "cached_tokens") {
        record.cached_tokens = cached;
    }
    if let Some(concurrency) = object.get("concurrency") {
        record.concurrency = concurrency.as_u64()?;
    }
    if let Some(gaps) = object.get("itl_ms") {
        record.itl_ms = Some(list(gaps, |gap| gap.as_f64().map(ms))?);
    }
    if let Some(summary) = object.get("itl_summary") {
        let summary = summary.as_object()?;
        record.itl_summary = Some(ItlSummary {
            mean_ms: ms(summary.get("mean_ms")?.as_f64()?),
            count: count(summary, "count")?,
        });
    }
    if let Some(arrival) = object.get("arrival_ms") {
        record.arrival_ms = Some(ms(arrival.as_f64()?));
    }
    if let Some(ctx) = object.get("itl_ctx") {
        record.itl_ctx = Some(ItlContext {
            num_running: list(ctx.get("num_running")?, small)?,
            prefill_tokens: list(ctx.get("prefill_tokens")?, small)?,
        });
    }
    Some(record)
}

fn record_json(record: &TraceRecord) -> String {
    let mut object = serde_json::Map::new();
    object.insert("prompt_tokens".to_string(), Value::from(record.prompt_tokens));
    object.insert("cached_tokens".to_string(), Value::from(record.cached_tokens));
    object.insert("output_tokens".to_string(), Value::from(record.output_tokens));
    object.insert("ttft_ms".to_string(), from_ms(record.ttft_ms));
    if let Some(gaps) = &record.itl_ms {
        let gaps: Vec<Value> = gaps.iter().map(|gap| from_ms(*gap)).collect();
        object.insert("itl_ms".to_string(), Value::from(gaps));
    }
    if let Some(summary) = &record.itl_summary {
        let mut inner = serde_json::Map::new();
        inner.insert("mean_ms".to_string(), from_ms(summary.mean_ms));
        inner.insert("count".to_string(), Value::from(summary.count));
        object.insert("itl_summary".to_string(), Value::Object(inner));
    }
    object.insert("concurrency".to_string(), Value::from(record.concurrency));
    if let Some(arrival) = record.arrival_ms {
        object.insert("arrival_ms".to_string(), from_ms(arrival));
    }
    serde_json::to_string(&Value::Object(object)).unwrap()
}

/// Turns the meta line's JSON into a header.
fn parse_meta(text: &str) -> Result<TraceMeta, String> {
    let value: Value = serde_json::from_str(text).map_err(|error| error.to_string())?;
    meta_of(&value).ok_or("no header".to_string())
}

fn meta_of(value: &Value) -> Option<TraceMeta> {
    let object = value.get("meta")?.as_object()?;
    let mut meta = TraceMeta::default();
    for (name, field) in object {
        match name.as_str() {
            "model" => meta.model = Some(field.as_str()?.to_string()),
            "gpu" => meta.gpu = Some(field.as_str()?.to_string()),
            "tp" => meta.tp = Some(small(field)?),
            "max_num_seqs" => meta.max_num_seqs = Some(field.as_u64()?),
            "source" => meta.source = Some(field.as_str()?.to_string()),
            _ => meta.set_extra(name.clone(), field.to_string()),
        }
    }
    Some(meta)
}

fn meta_json(meta: &TraceMeta) -> String {
    let mut object = serde_json::Map::new();
    if let Some(model) = &meta.model {
        object.insert("model".to_string(), Value::from(model.as_str()));
    }
    if let Some(gpu) = &meta.gpu {
        object.insert("gpu".to_string(), Value::from(gpu.as_str()));
    }
    if let Some(tp) = meta.tp {
        object.insert("tp".to_string(), Value::from(tp));
    }
    if let Some(max_num_seqs) = meta.max_num_seqs {
        object.insert("max_num_seqs".to_string(), Value::from(max_num_seqs));
    }
    if let Some(source) = &meta.source {
        object.insert("source".to_string(), Value::from(source.as_str()));
    }
    for (name, field) in &meta.extra {
        object.insert(name.clone(), serde_json::from_str(field).unwrap());
    }
    serde_json::to_string(&Value::Object(object)).unwrap()
}

fn read(text: &str) -> Result<(TraceMeta, Vec<TraceRecord>), TraceError> {
    read_trace(&split_lines(text), None, parse_meta, parse_record, parse_record)
}

fn written(meta: &TraceMeta, records: &[TraceRecord]) -> String {
    let jsons: Vec<String> = records.iter().map(record_json).collect();
    let mut out = String::new();
    write_trace(&mut out, &meta_json(meta), &jsons);
    out
}

fn sample_meta() -> TraceMeta {
    TraceMeta {
        model: Some("llama-7b".to_string()),
        gpu: Some("A100".to_string()),
        tp: Some(2),
        max_num_seqs: Some(128),
        source: Some("guidellm".to_string()),
        extra: Vec::new(),
    }
}

fn sample_records() -> Vec<TraceRecord> {
    vec![
        TraceRecord {
            prompt_tokens: 100,
            cached_tokens: 20,
            output_tokens: 5,
            ttft_ms: ms(50.0),
            itl_ms: Some(vec![ms(10.0), ms(12.0), ms(11.0), ms(9.0)]),
            itl_summary: None,
            concurrency: 3,
            arrival_ms: Some(ms(1234.5)),
            itl_ctx: None,
            ..Default::default()
        },
        TraceRecord {
            prompt_tokens: 200,
            cached_tokens: 0,
            output_tokens: 1,
            ttft_ms: ms(80.0),
            itl_ms: None,
            itl_summary: None,
            concurrency: 1,
            arrival_ms: None,
            itl_ctx: None,
            ..Default::default()
        },
        TraceRecord {
            prompt_tokens: 50,
            cached_tokens: 0,
            output_tokens: 10,
            ttft_ms: ms(30.0),
            itl_ms: None,
            itl_summary: Some(ItlSummary {
                mean_ms: ms(15.0),
                count: 9,
            }),
            concurrency: 5,
            arrival_ms: None,
            itl_ctx: None,
            ..Default::default()
        },
    ]
}

#[test]
fn round_trip_with_meta() {
    let meta = sample_meta();
    let records = sample_records();
    let text = written(&meta, &records);

    let (parsed_meta, parsed_records) = read(&text).unwrap();
    assert_eq!(parsed_meta, meta);
    assert_eq!(parsed_records, records);
}

#[test]
fn round_trip_without_meta() {
    let records = sample_records();
    let mut text = String::new();
    // Write records directly, no meta wrapper.
    for record in &records {
        append_record(&mut text, &record_json(record));
    }

    let (parsed_meta, parsed_records) = read(&text).unwrap();
    assert_eq!(parsed_meta, TraceMeta::default());
    assert_eq!(parsed_records, records);
}

#[test]
fn blank_lines_are_skipped() {
    let meta = sample_meta();
    let records = sample_records();
    let text = written(&meta, &records);
    // Insert blank lines.
    let with_blanks = text.replace('\n', "\n\n");
    let (parsed_meta, parsed_records) = read(&with_blanks).unwrap();
    assert_eq!(parsed_meta, meta);
    assert_eq!(parsed_records, records);
}

#[test]
fn empty_input_returns_default() {
    let (meta, records) = read("").unwrap();
    assert_eq!(meta, TraceMeta::default());
    assert!(records.is_empty());
}

#[test]
fn malformed_json_includes_line_number() {
    let input = "{\"meta\": {}}\n{bad json}\n";
    let err = read(input).unwrap_err();
    let msg = err.report();
    assert!(msg.contains("line 2"), "error should mention line 2: {msg}");
}

#[test]
fn missing_itl_with_multiple_output_tokens_is_error() {
    let input = r#"{"prompt_tokens":10,"output_tokens":5,"ttft_ms":10.0,"concurrency":1}"#;
    let err = read(input).unwrap_err();
    let msg = err.report();
    assert!(msg.contains("itl"), "error should mention itl: {msg}");
}

#[test]
fn itl_ctx_round_trips_and_validates_lengths() {
    let input = r#"{"prompt_tokens":10,"output_tokens":3,"ttft_ms":10.0,"itl_ms":[5.0,6.0],"itl_ctx":{"num_running":[4,4],"prefill_tokens":[0,800]},"concurrency":4}"#;
    let (_, records) = read(input).unwrap();
    let ctx = records[0].itl_ctx.as_ref().unwrap();
    assert_eq!(ctx.num_running, vec![4, 4]);
    assert_eq!(ctx.prefill_tokens, vec![0, 800]);

    // Context arrays that do not parallel itl_ms are rejected.
    let bad = r#"{"prompt_tokens":10,"output_tokens":3,"ttft_ms":10.0,"itl_ms":[5.0,6.0],"itl_ctx":{"num_running":[4],"prefill_tokens":[0,800]},"concurrency":4}"#;
    let err = read(bad).unwrap_err();
    assert!(err.report().contains("itl_ctx"));
}

#[test]
fn single_output_token_needs_no_itl() {
    let input = r#"{"prompt_tokens":10,"output_tokens":1,"ttft_ms":10.0,"concurrency":1}"#;
    let (_, records) = read(input).unwrap();
    assert_eq!(records.len(), 1);
    assert_eq!(records[0].output_tokens, 1);
}

#[test]
fn default_concurrency_is_one() {
    let input = r#"{"prompt_tokens":10,"output_tokens":1,"ttft_ms":10.0}"#;
    let (_, records) = read(input).unwrap();
    assert_eq!(records[0].concurrency, 1);
    assert_eq!(default_concurrency(), 1);
}

#[test]
fn default_cached_tokens_is_zero() {
    let input = r#"{"prompt_tokens":10,"output_tokens":1,"ttft_ms":10.0}"#;
    let (_, records) = read(input).unwrap();
    assert_eq!(records[0].cached_tokens, 0);
}

#[test]
fn meta_with_extra_fields() {
    let input = r#"{"meta":{"model":"llama","custom_key":"custom_value"}}"#;
    let (meta, _) = read(input).unwrap();
    assert_eq!(meta.model, Some("llama".to_string()));
    let custom = meta
        .extra
        .iter()
        .find(|(name, _)| name == "custom_key")
        .map(|(_, json)| serde_json::from_str::<Value>(json).unwrap());
    assert_eq!(custom.as_ref(), Some(&Value::String("custom_value".to_string())));
}

#[test]
fn append_record_format() {
    let record = TraceRecord {
        prompt_tokens: 42,
        cached_tokens: 0,
        output_tokens: 1,
        ttft_ms: ms(5.0),
        itl_ms: None,
        itl_summary: None,
        concurrency: 1,
        arrival_ms: None,
        itl_ctx: None,
        ..Default::default()
    };
    let mut text = String::new();
    append_record(&mut text, &record_json(&record));
    assert!(text.ends_with('\n'));
    let parsed = parse_record(text.trim()).unwrap();
    assert_eq!(parsed, record);
}

#[test]
fn a_written_trace_is_one_line_per_text() {
    let mut out = String::from("before");
    write_trace(&mut out, "{}", &vec!["1".to_string(), "[2]".to_string()]);
    assert_eq!(out, "before{\"meta\":{}}\n1\n[2]\n");
    append_record(&mut out, "3");
    assert_eq!(out, "before{\"meta\":{}}\n1\n[2]\n3\n");
}

/// What `serde_json` says of a text that is no JSON.
fn json_fault(text: &str) -> String {
    serde_json::from_str::<Value>(text).unwrap_err().to_string()
}

#[test]
fn each_read_error_names_its_line_and_its_cause() {
    let record = r#"{"prompt_tokens":10,"output_tokens":1,"ttft_ms":10.0}"#;
    let no_header = "no header".to_string();
    let no_record = "no record".to_string();
    let cases = [
        (
            "\n  \nnot json\n".to_string(),
            TraceError::InvalidJson { line_num: 3, cause: json_fault("not json") },
            "line 3: invalid JSON",
        ),
        (
            "{\"meta\": 5}\n".to_string(),
            TraceError::InvalidMeta { line_num: 1, cause: no_header.clone() },
            "line 1: invalid meta object",
        ),
        (
            "{\"meta\": null}\n".to_string(),
            TraceError::InvalidMeta { line_num: 1, cause: no_header },
            "line 1: invalid meta object",
        ),
        (
            "[\"meta\"]\n".to_string(),
            TraceError::InvalidRecord { line_num: 1, cause: no_record.clone() },
            "line 1: invalid trace record",
        ),
        (
            format!("{record}\n\n{{\"meta\":{{}}}}\n"),
            TraceError::InvalidRecord { line_num: 3, cause: no_record },
            "line 3: invalid trace record",
        ),
        (
            format!("{record}\n{{bad}}\n"),
            TraceError::InvalidRecord { line_num: 2, cause: json_fault("{bad}") },
            "line 2: invalid trace record",
        ),
    ];
    for (text, error, message) in cases {
        let got = read(&text).unwrap_err();
        assert_eq!(got, error, "{text}");
        assert_eq!(got.message(), message);
        assert_eq!(got.report(), format!("{message}: {}", got.cause().unwrap()));
    }
    let bare = [
        (
            format!("{record}\n{{\"prompt_tokens\":1,\"output_tokens\":7,\"ttft_ms\":1.0}}\n"),
            TraceError::MissingItl { line_num: 2, output_tokens: 7 },
            "line 2: output_tokens=7 but neither itl_ms nor itl_summary is present",
        ),
        (
            "{\"prompt_tokens\":1,\"output_tokens\":1,\"ttft_ms\":1.0,\
             \"itl_ctx\":{\"num_running\":[1],\"prefill_tokens\":[]}}"
                .to_string(),
            TraceError::ContextMismatch { line_num: 1, running: 1, prefill: 0, gaps: 0 },
            "line 1: itl_ctx arrays (running=1, prefill=0) must parallel itl_ms (len=0)",
        ),
    ];
    for (text, error, message) in bare {
        let got = read(&text).unwrap_err();
        assert_eq!(got, error, "{text}");
        assert_eq!(got.cause(), None);
        assert_eq!(got.report(), message);
    }
}

#[test]
fn a_failed_read_is_reported_after_the_lines_before_it() {
    let record = r#"{"prompt_tokens":10,"output_tokens":1,"ttft_ms":10.0}"#;
    let lines = vec![record.to_string(), String::new()];
    let broken = Some("broken pipe".to_string());
    let err = read_trace(&lines, broken.clone(), parse_meta, parse_record, parse_record)
        .unwrap_err();
    assert_eq!(
        err,
        TraceError::ReadFailed { line_num: 3, cause: "broken pipe".to_string() }
    );
    assert_eq!(err.message(), "reading line 3");
    assert_eq!(err.report(), "reading line 3: broken pipe");
    // A fault in an earlier line comes first, with its own cause.
    let lines = vec!["{".to_string()];
    let err = read_trace(&lines, broken, parse_meta, parse_record, parse_record).unwrap_err();
    assert_eq!(err, TraceError::InvalidJson { line_num: 1, cause: json_fault("{") });
}

#[test]
fn times_compare_as_numbers() {
    assert_eq!(ms(0.0), ms(-0.0));
    assert_ne!(ms(f64::NAN), ms(f64::NAN));
    assert_ne!(ms(1.0), ms(-1.0));
    assert_eq!(ms(f64::INFINITY), ms(f64::INFINITY));
    for a in [0.0, -0.0, 1.5, -1.5, f64::NAN, f64::INFINITY, f64::MIN_POSITIVE] {
        for b in [0.0, -0.0, 1.5, -1.5, -f64::NAN, f64::NEG_INFINITY, f64::MIN_POSITIVE] {
            assert_eq!(ms(a) == ms(b), a == b, "{a} {b}");
        }
    }
    let mut zero = sample_records().remove(1);
    zero.ttft_ms = ms(0.0);
    let mut negative = zero.clone();
    negative.ttft_ms = ms(-0.0);
    assert_eq!(zero, negative);
    negative.ttft_ms = ms(f64::NAN);
    assert_ne!(negative, negative.clone());
}

#[test]
fn only_the_first_line_is_checked_for_meta() {
    let text = "{\"meta\":{\"gpu\":\"H200\"}}\n\
                {\"prompt_tokens\":1,\"output_tokens\":1,\"ttft_ms\":2.5,\"meta\":1}\n";
    let (meta, records) = read(text).unwrap();
    assert_eq!(meta.gpu, Some("H200".to_string()));
    assert_eq!(records.len(), 1);
    assert_eq!(records[0].ttft_ms, ms(2.5));
}

#[test]
fn valid_records_pass() {
    for record in sample_records() {
        assert_eq!(validate_record(&record, 1), Ok(()));
    }
    let mut record = sample_records().remove(2);
    record.itl_summary = None;
    assert_eq!(
        validate_record(&record, 4),
        Err(TraceError::MissingItl { line_num: 4, output_tokens: 10 })
    );
}

#[test]
fn freeform_fields_are_a_map() {
    let mut a = TraceMeta::default();
    a.set_extra("b".to_string(), "1".to_string());
    a.set_extra("a".to_string(), "2".to_string());
    a.set_extra("c".to_string(), "3".to_string());
    let mut b = TraceMeta::default();
    b.set_extra("c".to_string(), "0".to_string());
    b.set_extra("a".to_string(), "2".to_string());
    b.set_extra("b".to_string(), "1".to_string());
    assert_ne!(a, b);
    // A field that is set again takes the place of the earlier one.
    b.set_extra("c".to_string(), "3".to_string());
    assert_eq!(a, b);
    let names: Vec<&str> = b.extra.iter().map(|(name, _)| name.as_str()).collect();
    assert_eq!(names, vec!["a", "b", "c"]);
}

#[test]
fn any_number_of_blank_lines_changes_line_numbers_only() {
    let meta = sample_meta();
    let records = sample_records();
    let padded = format!("\n \t\n{}\n\n\n", written(&meta, &records).replace('\n', "\n\r\n\n  \n"));
    let (parsed_meta, parsed_records) = read(&padded).unwrap();
    assert_eq!(parsed_meta, meta);
    assert_eq!(parsed_records, records);
    let cause = json_fault("{");
    assert_eq!(
        read("{").unwrap_err(),
        TraceError::InvalidJson { line_num: 1, cause: cause.clone() }
    );
    assert_eq!(
        read("\n\n\n{").unwrap_err(),
        TraceError::InvalidJson { line_num: 4, cause }
    );
}
