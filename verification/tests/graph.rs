use faceage::graph::{
    crop_dimensions, failed, Call, ErrorCode, Input, NnError, Scoring, Session, CROP_BYTES,
    LOADING, MODEL,
};
use faceage::head::{age_output, ages_of, coral_age, decode, le_f32s, Tensor, SIDE, THRESHOLDS};
use faceage::number::Num;

fn sigmoid(logit: f32) -> f32 {
    1.0 / (1.0 + (-logit).exp())
}

/// The age of a row of logits.
fn age_of(logits: &[f32]) -> f64 {
    let passed: Vec<Num> = logits
        .iter()
        .map(|logit| Num {
            bits: f64::from(sigmoid(*logit)).to_bits(),
        })
        .collect();
    f64::from_bits(coral_age(&passed).bits)
}

/// The bytes of a head of so many rows, every logit of a row the same.
fn head(rows: &[f32]) -> Tensor {
    let mut data: Vec<u8> = Vec::new();
    for row in rows {
        for _ in 0..THRESHOLDS {
            data.extend(row.to_le_bytes());
        }
    }
    Tensor {
        dimensions: vec![rows.len() as u32, THRESHOLDS as u32],
        data,
    }
}

fn gender(rows: usize) -> Tensor {
    Tensor {
        dimensions: vec![rows as u32, 2],
        data: vec![0; rows * 8],
    }
}

fn refused(data: &str) -> NnError {
    NnError {
        code: ErrorCode::InvalidArgument,
        data: data.to_string(),
    }
}

#[test]
fn the_age_head_is_told_from_the_gender_head_by_shape_in_either_order() {
    assert_eq!(age_output(&[vec![1, 100], vec![1, 2]]).expect("found"), 0);
    assert_eq!(age_output(&[vec![4, 2], vec![4, 100]]).expect("found"), 1);
    let error = age_output(&[vec![1, 2]]).expect_err("no age head");
    assert!(error.starts_with("ages: "), "{error}");
}

#[test]
fn a_missing_age_head_is_told_with_what_came() {
    let shapes = [vec![1, 2], vec![], vec![4294967295, 100, 7], vec![100]];
    assert_eq!(
        age_output(&shapes).expect_err("none of them"),
        format!(
            "ages: the graph returned {shapes:?}, and this module wants \
             the CORAL head's [batch, {THRESHOLDS}] age logits"
        )
    );
    let none: [Vec<u32>; 0] = [];
    assert_eq!(
        age_output(&none).expect_err("nothing"),
        "ages: the graph returned [], and this module wants the CORAL head's [batch, 100] age logits"
    );
    assert_eq!(age_output(&[vec![3, 100], vec![5, 100]]).expect("the first"), 0);
}

#[test]
fn the_coral_thresholds_of_a_batch_decode_one_age_per_crop() {
    // Two crops: one past twenty thresholds, one past sixty.
    let mut logits = vec![-20.0f32; 2 * THRESHOLDS];
    logits[..20].fill(20.0);
    logits[THRESHOLDS..THRESHOLDS + 60].fill(20.0);
    let ages: Vec<f64> = logits.chunks(THRESHOLDS).map(age_of).collect();
    assert!((ages[0] - 20.0).abs() < 1e-4);
    assert!((ages[1] - 60.0).abs() < 1e-4);
}

#[test]
fn the_coral_head_counts_the_thresholds_the_face_is_past() {
    // Twenty thresholds well past, eighty well short: twenty years.
    let mut logits = vec![-20.0f32; 100];
    logits[..20].fill(20.0);
    assert!((age_of(&logits) - 20.0).abs() < 1e-4);
    // A threshold sitting on the fence is half a year.
    logits[20] = 0.0;
    assert!((age_of(&logits) - 20.5).abs() < 1e-4);
    assert!(age_of(&[-30.0; 100]) < 0.001, "a newborn");
    assert!((age_of(&[30.0; 100]) - 100.0).abs() < 0.001, "and the top");
}

#[test]
fn thresholds_that_are_certain_are_counted() {
    let mut passed = vec![Num::count(0); 100];
    for i in 0..37 {
        passed[(i * 29) % 100] = Num::count(1);
    }
    assert_eq!(coral_age(&passed), Num::count(37));
}

#[test]
fn a_tensors_floats_come_back_out_of_its_bytes() {
    let values = [1.5f32, -2.25, 0.0];
    let floats = |bytes: &[u8]| -> Vec<f32> {
        le_f32s(bytes).iter().map(|b| f32::from_bits(*b)).collect()
    };
    let bytes: Vec<u8> = values.iter().flat_map(|v| v.to_le_bytes()).collect();
    assert_eq!(floats(&bytes), values);
    // A trailing part-word is not a float and is not read.
    assert_eq!(floats(&bytes[..bytes.len() - 1]), values[..2]);
}

#[test]
fn logits_are_split_by_crop_and_counted() {
    let rows = decode(&[gender(2), head(&[1.0, 2.0])], 2).expect("two rows");
    assert_eq!(rows.len(), 2);
    assert_eq!(rows[0], vec![1.0f32.to_bits(); 100]);
    assert_eq!(rows[1], vec![2.0f32.to_bits(); 100]);
    assert_eq!(
        decode(&[head(&[1.0, 2.0])], 3).expect_err("one short"),
        "ages: 3 crops went to the graph and 200 age logits came back"
    );
    assert!(decode(&[gender(2)], 2).is_err());
}

#[test]
fn a_failure_is_spelled_as_the_interface_spells_it() {
    let codes = [
        (ErrorCode::InvalidArgument, "invalid-argument"),
        (ErrorCode::InvalidEncoding, "invalid-encoding"),
        (ErrorCode::Timeout, "timeout"),
        (ErrorCode::RuntimeError, "runtime-error"),
        (ErrorCode::UnsupportedOperation, "unsupported-operation"),
        (ErrorCode::TooLarge, "too-large"),
        (ErrorCode::NotFound, "not-found"),
        (ErrorCode::Security, "security"),
        (ErrorCode::Unknown, "unknown"),
    ];
    for (code, name) in codes {
        let error = NnError {
            code,
            data: "why".to_string(),
        };
        assert_eq!(failed("compute", &error), format!("ages: compute: {name} (why)"));
    }
    assert_eq!(LOADING, format!("load-by-name({MODEL:?})"));
}

#[test]
fn a_batch_goes_through_whole() {
    let mut scoring = Scoring::begin(Session::new(), 3, 3 * CROP_BYTES);
    assert_eq!(
        scoring.next(),
        Some(Call {
            input: Input::Name,
            crops: 3,
            start: 0,
            end: 3 * CROP_BYTES
        })
    );
    scoring.answer(Ok(vec![head(&[1.0, 2.0, 3.0])]));
    assert_eq!(scoring.next(), None);
    assert_eq!(scoring.session, Session::new());
    assert_eq!(scoring.finish().expect("three").len(), 3);
    assert_eq!(crop_dimensions(3), vec![3, 3, SIDE as u32, SIDE as u32]);
    assert_eq!(CROP_BYTES, 3 * SIDE * SIDE * 4);
    assert_eq!((Input::Name.text(), Input::Position.text()), ("face", "0"));
}

#[test]
fn a_refused_name_is_tried_by_position_and_kept() {
    let mut scoring = Scoring::begin(Session::new(), 1, CROP_BYTES);
    assert_eq!(scoring.next().expect("a call").input, Input::Name);
    scoring.answer(Err(refused("no such input")));
    assert_eq!(
        scoring.next(),
        Some(Call {
            input: Input::Position,
            crops: 1,
            start: 0,
            end: CROP_BYTES
        })
    );
    scoring.answer(Ok(vec![head(&[1.0])]));
    assert_eq!(scoring.session.input, Input::Position);
    let session = scoring.session;
    assert_eq!(scoring.finish().expect("one").len(), 1);
    // The next frame names it by position from the start, and is not tried
    // twice.
    let mut scoring = Scoring::begin(session, 1, CROP_BYTES);
    assert_eq!(scoring.next().expect("a call").input, Input::Position);
    scoring.answer(Err(refused("and still")));
    assert_eq!(scoring.next(), None);
    assert_eq!(
        scoring.finish().expect_err("refused"),
        "ages: compute: invalid-argument (and still)"
    );
}

#[test]
fn a_name_that_was_refused_either_way_stays() {
    // Two crops, one to a call: the first is answered under the name.
    let session = Session {
        input: Input::Name,
        batched: false,
    };
    let mut scoring = Scoring::begin(session, 2, 2 * CROP_BYTES);
    scoring.answer(Ok(vec![head(&[1.0])]));
    scoring.answer(Err(refused("not now")));
    assert_eq!(scoring.session.input, Input::Name, "nothing is settled yet");
    assert_eq!(scoring.next().expect("a call").input, Input::Position);
    scoring.answer(Err(refused("nor so")));
    assert_eq!(scoring.next(), None);
    assert_eq!(scoring.session.input, Input::Name, "the position never worked");
    assert_eq!(
        scoring.finish().expect_err("refused"),
        "ages: compute: invalid-argument (nor so)"
    );

    // A batch refused either way is put to the graph by name again, crop by
    // crop.
    let mut scoring = Scoring::begin(Session::new(), 2, 2 * CROP_BYTES);
    scoring.answer(Err(refused("too many")));
    scoring.answer(Err(refused("still too many")));
    assert_eq!(
        scoring.notice.as_deref(),
        Some(
            "ages: a batch of 2 crops was refused (ages: compute: invalid-argument (still too \
             many)); one crop per call for the rest of this run"
        )
    );
    assert_eq!(
        scoring.next(),
        Some(Call {
            input: Input::Name,
            crops: 1,
            start: 0,
            end: CROP_BYTES
        })
    );
}

#[test]
fn a_refused_batch_goes_through_one_crop_at_a_time() {
    let session = Session {
        input: Input::Position,
        batched: true,
    };
    let mut scoring = Scoring::begin(session, 2, 2 * CROP_BYTES);
    scoring.answer(Ok(vec![head(&[1.0])]));
    assert_eq!(
        scoring.notice.as_deref(),
        Some(
            "ages: a batch of 2 crops was refused (ages: 2 crops went to the graph and 100 age \
             logits came back); one crop per call for the rest of this run"
        )
    );
    let mut starts = Vec::new();
    while let Some(call) = scoring.next() {
        assert_eq!(call.crops, 1);
        assert_eq!(call.end - call.start, CROP_BYTES);
        starts.push(call.start);
        scoring.answer(Ok(vec![head(&[starts.len() as f32])]));
    }
    assert_eq!(starts, vec![0, CROP_BYTES]);
    assert!(!scoring.session.batched);
    let session = scoring.session;
    let rows = scoring.finish().expect("both");
    assert_eq!(rows.len(), 2);
    assert!(rows.iter().all(|row| row.len() == THRESHOLDS));
    assert_eq!(rows[1][0], 2.0f32.to_bits());
    // And so does every frame after it.
    let scoring = Scoring::begin(session, 5, 5 * CROP_BYTES);
    assert_eq!(scoring.next().expect("a call").crops, 1);
}

#[test]
fn no_crops_make_no_call() {
    let scoring = Scoring::begin(Session::new(), 0, 0);
    assert_eq!(scoring.next(), None);
    assert!(scoring.finish().expect("nothing").is_empty());
}

#[test]
fn every_row_of_logits_decodes_to_an_age() {
    let rows = decode(&[head(&[30.0, -30.0, 0.0])], 3).expect("three rows");
    let past = |bits: u32| Num {
        bits: f64::from(sigmoid(f32::from_bits(bits))).to_bits(),
    };
    let ages: Vec<f64> = ages_of(&rows, past).iter().map(|n| f64::from_bits(n.bits)).collect();
    assert_eq!(ages.len(), 3);
    assert!((ages[0] - 100.0).abs() < 0.001);
    assert!(ages[1] < 0.001);
    assert_eq!(ages[2], 50.0, "a hundred thresholds on the fence");
}

#[test]
fn an_age_is_the_same_in_parts_and_in_any_order() {
    let mut passed: Vec<Num> = Vec::new();
    let mut x: f64 = 0.37;
    for _ in 0..1000 {
        x = 3.97 * x * (1.0 - x);
        passed.push(Num { bits: x.to_bits() });
    }
    let age = |list: &[Num]| f64::from_bits(coral_age(list).bits);
    let whole = age(&passed);
    assert!((0.0..=1000.0).contains(&whole));
    for at in [0, 1, 400, 999, 1000] {
        assert!((age(&passed[..at]) + age(&passed[at..]) - whole).abs() <= 1e-9);
    }
    let turned: Vec<Num> = passed.iter().rev().copied().collect();
    assert!((age(&turned) - whole).abs() <= 1e-9);
    let none: [Num; 0] = [];
    assert_eq!(age(&none), 0.0);
    for i in [0, 17, 999] {
        let mut raised = passed.clone();
        raised[i] = Num::count(1);
        assert!(age(&raised) >= whole);
    }
}
