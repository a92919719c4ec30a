use faceage::boxes::FaceBox;
use faceage::face::{Det, Row, Track, MEMORY};
use faceage::matching::match_boxes;
use faceage::number::Num;
use faceage::params::Params;
use faceage::tracker::{advance, Frame};

fn num(x: f64) -> Num {
    Num { bits: x.to_bits() }
}

fn float(n: Num) -> f64 {
    f64::from_bits(n.bits)
}

fn nums(list: &[f64]) -> Vec<Num> {
    list.iter().map(|x| num(*x)).collect()
}

fn det(x: f64, y: f64, w: f64, h: f64) -> Det {
    Det {
        conf: num(0.9),
        b: (num(x), num(y), num(w), num(h)),
    }
}

/// A frame's worth of scoring that answers the ages it was built with, and
/// records how many crops it was asked for.
fn answers(list: &[f64]) -> impl Fn(&[FaceBox]) -> Result<Vec<Num>, String> + '_ {
    move |boxes| {
        assert!(
            boxes.len() <= list.len(),
            "the frame asked for {} crops and the fixture has {}",
            boxes.len(),
            list.len()
        );
        Ok(nums(&list[..boxes.len()]))
    }
}

/// A row as it is written out.
fn json(row: &Row) -> String {
    format!(
        "{{\"class\":{},\"conf\":{},\"x\":{},\"y\":{},\"w\":{},\"h\":{},\"age\":{}}}",
        serde_json::to_string(&row.class).expect("a text"),
        serde_json::to_string(&float(row.conf)).expect("a number"),
        row.x,
        row.y,
        row.w,
        row.h,
        serde_json::to_string(&float(row.age)).expect("a number"),
    )
}

/// What one row says, as the value of one of its keys.
fn field(row: &Row, key: &str) -> f64 {
    let parsed: serde_json::Value = serde_json::from_str(&json(row)).expect("a row");
    parsed[key].as_f64().unwrap_or_else(|| panic!("{key} in {row:?}"))
}

#[test]
fn a_box_matches_the_face_it_overlaps_most_one_to_one() {
    let mut tracks = vec![];
    let first = [det(0.0, 0.0, 100.0, 100.0), det(200.0, 0.0, 100.0, 100.0)];
    advance(&mut tracks, &first, Params::default(), answers(&[10.0, 40.0])).unwrap();
    assert_eq!(tracks.len(), 2);

    // Both faces moved a little, and the rows arrive in the other order.
    let moved = [det(205.0, 4.0, 100.0, 100.0), det(6.0, 3.0, 100.0, 100.0)];
    let of_det = match_boxes(&tracks, &moved);
    assert_eq!(of_det, vec![Some(1), Some(0)]);
}

#[test]
fn a_box_overlapping_nothing_enough_starts_a_new_face() {
    let mut tracks = vec![];
    advance(
        &mut tracks,
        &[det(0.0, 0.0, 100.0, 100.0)],
        Params::default(),
        answers(&[10.0]),
    )
    .unwrap();
    // A quarter overlap is 1/7 of the union, under the 0.3 it takes.
    let of_det = match_boxes(&tracks, &[det(50.0, 50.0, 100.0, 100.0)]);
    assert_eq!(of_det, vec![None]);
    // Half of each is a third of the union, over it.
    let of_det = match_boxes(&tracks, &[det(50.0, 0.0, 100.0, 100.0)]);
    assert_eq!(of_det, vec![Some(0)]);
}

#[test]
fn two_boxes_over_one_face_leave_the_second_a_new_face() {
    let mut tracks = vec![];
    advance(
        &mut tracks,
        &[det(0.0, 0.0, 100.0, 100.0)],
        Params::default(),
        answers(&[10.0]),
    )
    .unwrap();
    let of_det = match_boxes(
        &tracks,
        &[det(4.0, 0.0, 100.0, 100.0), det(8.0, 0.0, 100.0, 100.0)],
    );
    assert_eq!(of_det, vec![Some(0), None], "the closer box takes the face");
}

#[test]
fn a_faces_age_is_the_running_mean_of_its_scores() {
    let mut tracks = vec![];
    let one = [det(0.0, 0.0, 100.0, 100.0)];
    for age in [10.0, 20.0, 30.0] {
        let out = advance(&mut tracks, &one, Params::default(), answers(&[age])).unwrap();
        assert_eq!(out.len(), 1);
    }
    // 10, 20 and 30 scored, so twenty.
    assert!((float(tracks[0].age()) - 20.0).abs() < 1e-9);
}

#[test]
fn the_running_mean_forgets_past_thirty_scores() {
    let mut track = Track::new(det(0.0, 0.0, 10.0, 10.0));
    for _ in 0..MEMORY {
        track.scored(num(10.0));
    }
    assert_eq!(track.scores.len(), MEMORY);
    assert!((float(track.age()) - 10.0).abs() < 1e-9);
    for _ in 0..MEMORY {
        track.scored(num(40.0));
    }
    assert_eq!(track.scores.len(), MEMORY, "thirty and no more");
    assert!((float(track.age()) - 40.0).abs() < 1e-9, "the first thirty are gone");
}

#[test]
fn every_is_how_many_frames_apart_a_face_is_scored() {
    for every in [1u32, 2, 5] {
        let mut tracks = vec![];
        let one = [det(0.0, 0.0, 100.0, 100.0)];
        let mut scored = 0;
        for _ in 0..20 {
            advance(&mut tracks, &one, Params { hold: 5, every }, |boxes: &[FaceBox]| {
                scored += boxes.len();
                Ok(nums(&vec![25.0; boxes.len()]))
            })
            .unwrap();
        }
        // Twenty frames, the first one always scored and then one every
        // `every` after it.
        let want = 1 + (20 - 1) / every as usize;
        assert_eq!(scored, want, "every {every}");
    }
}

#[test]
fn a_face_between_scores_still_reports_its_age_at_this_frames_box() {
    let mut tracks = vec![];
    let params = Params { hold: 5, every: 5 };
    advance(
        &mut tracks,
        &[det(0.0, 0.0, 100.0, 100.0)],
        params,
        answers(&[12.0]),
    )
    .unwrap();
    let out = advance(
        &mut tracks,
        &[det(20.0, 0.0, 100.0, 100.0)],
        params,
        |_: &[FaceBox]| panic!("nothing is due on the second frame"),
    )
    .unwrap();
    assert_eq!(out.len(), 1);
    assert_eq!(field(&out[0], "x"), 20.0, "the box is this frame's");
    assert_eq!(field(&out[0], "age"), 12.0, "the age is the one it has");
}

#[test]
fn a_face_the_detector_lost_is_held_and_then_dropped() {
    let mut tracks = vec![];
    let params = Params { hold: 2, every: 1 };
    let one = [det(10.0, 20.0, 100.0, 100.0)];
    advance(&mut tracks, &one, params, answers(&[30.0])).unwrap();

    for frame in 1..=2 {
        let out = advance(&mut tracks, &[], params, answers(&[])).unwrap();
        assert_eq!(out.len(), 1, "frame {frame} is still holding it");
        assert_eq!(field(&out[0], "x"), 10.0, "where it was last seen");
        assert_eq!(field(&out[0], "age"), 30.0);
        assert_eq!(field(&out[0], "conf"), 0.9);
    }
    let out = advance(&mut tracks, &[], params, answers(&[])).unwrap();
    assert!(out.is_empty(), "past hold it is gone");
    assert!(tracks.is_empty());
}

#[test]
fn hold_zero_carries_nothing() {
    let mut tracks = vec![];
    let params = Params { hold: 0, every: 1 };
    advance(
        &mut tracks,
        &[det(10.0, 20.0, 100.0, 100.0)],
        params,
        answers(&[30.0]),
    )
    .unwrap();
    let out = advance(&mut tracks, &[], params, answers(&[])).unwrap();
    assert!(out.is_empty(), "the frame it is not found it is gone");
    assert!(tracks.is_empty());
}

#[test]
fn a_face_found_again_inside_hold_keeps_the_age_it_had() {
    let mut tracks = vec![];
    let params = Params { hold: 3, every: 1 };
    let one = [det(10.0, 20.0, 100.0, 100.0)];
    advance(&mut tracks, &one, params, answers(&[30.0])).unwrap();
    advance(&mut tracks, &[], params, answers(&[])).unwrap();
    let out = advance(&mut tracks, &one, params, answers(&[40.0])).unwrap();
    assert_eq!(tracks.len(), 1, "the same face, not a new one");
    // 30 and 40 scored, so 35.
    assert_eq!(field(&out[0], "age"), 35.0);
}

#[test]
fn a_row_carries_the_class_the_box_and_the_age_to_one_decimal() {
    let mut track = Track::new(Det {
        conf: num(0.87941),
        b: (num(222.0), num(62.0), num(417.0), num(500.0)),
    });
    track.scored(num(11.111));
    track.scored(num(12.222));
    assert_eq!(
        json(&track.row()),
        r#"{"class":"face","conf":0.8794,"x":222,"y":62,"w":417,"h":500,"age":11.7}"#
    );
}

#[test]
fn a_frame_with_no_faces_at_all_writes_no_rows() {
    let mut tracks = vec![];
    let out = advance(&mut tracks, &[], Params::default(), answers(&[])).unwrap();
    assert!(out.is_empty());
}

#[test]
fn a_frame_whose_ages_do_not_come_back_leaves_the_faces_it_met() {
    let mut tracks = vec![];
    let two = [det(0.0, 0.0, 100.0, 100.0), det(200.0, 0.0, 100.0, 100.0)];
    let error = advance(&mut tracks, &two, Params::default(), |_: &[FaceBox]| {
        Ok(vec![num(10.0)])
    })
    .expect_err("one age for two crops");
    assert_eq!(error, "ages: 2 crops went to the graph and 1 ages came back");
    assert_eq!(tracks.len(), 2, "and both are being followed");
    assert!(tracks[0].scores.is_empty());

    let error = advance(&mut tracks, &two, Params::default(), |_: &[FaceBox]| {
        Err("the graph would not".to_string())
    })
    .expect_err("refused");
    assert_eq!(error, "the graph would not");
    assert_eq!(tracks.len(), 2, "neither of them twice");
}

#[test]
fn the_boxes_to_score_come_in_the_order_of_the_rows() {
    let mut tracks = vec![];
    let params = Params { hold: 5, every: 2 };
    advance(
        &mut tracks,
        &[det(0.0, 0.0, 100.0, 100.0)],
        params,
        answers(&[10.0]),
    )
    .unwrap();
    // The old face is not due; the two new ones are, first to last.
    let dets = [
        det(400.0, 0.0, 50.0, 50.0),
        det(2.0, 0.0, 100.0, 100.0),
        det(600.0, 0.0, 50.0, 50.0),
    ];
    let frame = Frame::begin(tracks, &dets, params);
    assert_eq!(frame.boxes(), &[dets[0].b, dets[2].b]);
    let (tracks, rows) = frame.finish(Ok(nums(&[20.0, 30.0])));
    let rows = rows.expect("rows");
    let told: Vec<(i64, f64)> = rows.iter().map(|r| (r.x, float(r.age))).collect();
    assert_eq!(told, vec![(2, 10.0), (400, 20.0), (600, 30.0)]);
    assert_eq!(tracks[0].since, 2);
    assert_eq!(tracks[1].since, 1);
}

#[test]
fn equal_overlaps_go_to_the_first_box_and_the_first_face() {
    let tracks = vec![
        Track::new(det(0.0, 0.0, 10.0, 10.0)),
        Track::new(det(0.0, 0.0, 10.0, 10.0)),
    ];
    let dets = [det(0.0, 0.0, 10.0, 10.0), det(0.0, 0.0, 10.0, 10.0)];
    assert_eq!(match_boxes(&tracks, &dets), vec![Some(0), Some(1)]);
    // A surer pair is dealt first, whatever the order of the boxes.
    let dets = [det(1.0, 0.0, 10.0, 10.0), det(0.0, 0.0, 10.0, 10.0)];
    assert_eq!(match_boxes(&tracks[..1], &dets), vec![None, Some(0)]);
}

#[test]
fn a_face_with_no_scores_is_as_old_as_nothing_summed() {
    let track = Track::new(det(0.0, 0.0, 10.0, 10.0));
    let none: Vec<f64> = Vec::new();
    let sum: f64 = none.iter().sum();
    let mean = sum / 1.0;
    let age = (mean * 10.0).round() / 10.0;
    assert_eq!(track.age().bits, age.to_bits());
}

#[test]
fn an_age_is_the_machines_own_mean() {
    let mut track = Track::new(det(0.0, 0.0, 10.0, 10.0));
    let mut held: Vec<f64> = Vec::new();
    let mut x = 0.7;
    for _ in 0..100 {
        x = 3.9 * x * (1.0 - x);
        let age = x * 97.0;
        track.scored(num(age));
        held.push(age);
        if held.len() > 30 {
            held.remove(0);
        }
        let sum: f64 = held.iter().sum();
        let mean = sum / held.len() as f64;
        assert_eq!(float(track.age()), (mean * 10.0).round() / 10.0);
    }
}

#[test]
fn a_row_falls_on_the_nearest_pixel() {
    let track = Track::new(Det {
        conf: num(0.99996),
        b: (num(-0.5), num(2.5), num(1e300), num(f64::NAN)),
    });
    let row = track.row();
    assert_eq!((row.x, row.y, row.w, row.h), (-1, 3, i64::MAX, 0));
    assert_eq!(float(row.conf), 1.0);
}

#[test]
fn a_steady_face_is_reported_at_its_age() {
    for year in [0.0, 1.0, 16.0, 99.0] {
        let mut track = Track::new(det(0.0, 0.0, 10.0, 10.0));
        for _ in 0..45 {
            track.scored(num(year));
            assert_eq!(float(track.age()), year);
        }
    }
    let mut track = Track::new(det(0.0, 0.0, 10.0, 10.0));
    for year in [10.0, 11.0, 11.0] {
        track.scored(num(year));
    }
    assert_eq!(float(track.age()), 10.7, "32 over 3, to one decimal");
}

#[test]
fn faces_are_dropped_in_their_order() {
    let params = Params { hold: 3, every: 1 };
    let mut tracks = vec![];
    for missed in [0, 3, 1, 2] {
        let mut track = Track::new(det(100.0 * missed as f64, 0.0, 10.0, 10.0));
        track.scored(num(20.0));
        track.missed = missed;
        tracks.push(track);
    }
    let mut left = Vec::new();
    for _ in 0..4 {
        let out = advance(&mut tracks, &[], params, answers(&[])).unwrap();
        left.push(out.iter().map(|r| r.x / 100).collect::<Vec<i64>>());
    }
    assert_eq!(left, vec![vec![0, 1, 2], vec![0, 1], vec![0], vec![]]);
}

#[test]
fn with_hold_zero_a_face_in_the_same_place_is_another() {
    let mut tracks = vec![];
    let params = Params { hold: 0, every: 1 };
    let one = [det(0.0, 0.0, 100.0, 100.0)];
    let out = advance(&mut tracks, &one, params, answers(&[30.0])).unwrap();
    assert_eq!(field(&out[0], "age"), 30.0);
    let out = advance(&mut tracks, &one, params, answers(&[40.0])).unwrap();
    assert_eq!(out.len(), 1);
    assert_eq!(field(&out[0], "age"), 40.0, "not the mean of two people");
    // Nor is one let off its score for what another had.
    let params = Params { hold: 0, every: 9 };
    let out = advance(&mut tracks, &one, params, answers(&[50.0])).unwrap();
    assert_eq!(field(&out[0], "age"), 50.0);
    assert_eq!(tracks[0].scores.len(), 1);
}

#[test]
fn a_lost_face_is_written_again_as_it_was() {
    let mut tracks = vec![];
    let params = Params { hold: 3, every: 1 };
    let two = [det(10.0, 20.0, 100.0, 100.0), det(300.0, 20.0, 50.0, 60.0)];
    let first = advance(&mut tracks, &two, params, answers(&[30.0, 7.25])).unwrap();
    let first: Vec<String> = first.iter().map(json).collect();
    for n in 1..=5 {
        let out = advance(&mut tracks, &[], params, |_: &[FaceBox]| {
            panic!("there is nothing to score")
        })
        .unwrap();
        let out: Vec<String> = out.iter().map(json).collect();
        if n <= 3 {
            assert_eq!(out, first, "frame {n}");
        } else {
            assert!(out.is_empty(), "frame {n}");
        }
    }
}

#[test]
fn an_age_is_a_whole_number_of_tenths_near_the_mean() {
    let mut track = Track::new(det(0.0, 0.0, 10.0, 10.0));
    let mut held: Vec<f64> = Vec::new();
    let mut x = 0.3;
    for _ in 0..200 {
        x = 3.99 * x * (1.0 - x);
        track.scored(num(x * 100.0));
        held.push(x * 100.0);
        if held.len() > MEMORY {
            held.remove(0);
        }
        let mean = held.iter().sum::<f64>() / held.len() as f64;
        let age = float(track.age());
        assert!((age - mean).abs() <= 0.05 + 1e-12);
        assert_eq!(age, (age * 10.0).round() / 10.0);
    }
}

#[test]
fn a_failed_frame_leaves_the_faces_with_hold_zero_too() {
    for hold in [0, 5] {
        let params = Params { hold, every: 1 };
        let mut old = Track::new(det(0.0, 0.0, 100.0, 100.0));
        old.scored(num(30.0));
        old.since = 4;
        let mut tracks = vec![old];
        let two = [det(300.0, 0.0, 50.0, 50.0), det(600.0, 0.0, 50.0, 50.0)];
        let error = advance(&mut tracks, &two, params, |_: &[FaceBox]| {
            Err("the graph would not".to_string())
        })
        .expect_err("refused");
        assert_eq!(error, "the graph would not");
        let left: Vec<(FaceBox, usize)> = tracks.iter().map(|t| (t.b, t.scores.len())).collect();
        let was = det(0.0, 0.0, 100.0, 100.0);
        assert_eq!(left, vec![(was.b, 1), (two[0].b, 0), (two[1].b, 0)], "hold {hold}");
        assert_eq!((tracks[0].conf, tracks[0].since, tracks[0].missed), (was.conf, 4, 0));

        // And so does one that came back short.
        tracks.truncate(1);
        let error = advance(&mut tracks, &two, params, |_: &[FaceBox]| Ok(nums(&[1.0])))
            .expect_err("one age for two crops");
        assert_eq!(error, "ages: 2 crops went to the graph and 1 ages came back");
        assert_eq!(tracks.len(), 3, "hold {hold}");

        // The next frame that goes through writes what `hold` has it write.
        let out = advance(&mut tracks, &two, params, answers(&[10.0, 20.0])).unwrap();
        assert_eq!(out.len(), if hold == 0 { 2 } else { 3 });
    }
}

#[test]
fn each_face_is_scored_once_in_every_whatever_else_is_found() {
    let params = Params { hold: 1, every: 3 };
    let mut tracks = vec![];
    let mut scored_at: Vec<usize> = Vec::new();
    for frame in 0..12 {
        // A face there all along, after others that come and go before it.
        let mut dets = Vec::new();
        if frame % 2 == 0 {
            dets.push(det(1000.0 + 200.0 * frame as f64, 0.0, 50.0, 50.0));
        }
        if frame >= 2 {
            dets.push(det(frame as f64, 0.0, 100.0, 100.0));
        }
        advance(&mut tracks, &dets, params, |boxes: &[FaceBox]| {
            if boxes.iter().any(|b| float(b.0) < 100.0) {
                scored_at.push(frame);
            }
            Ok(nums(&vec![20.0; boxes.len()]))
        })
        .unwrap();
    }
    assert_eq!(scored_at, vec![2, 5, 8, 11]);
}

#[test]
fn a_lost_face_is_held_while_others_are_found() {
    let params = Params { hold: 2, every: 1 };
    let mut tracks = vec![];
    let two = [det(0.0, 0.0, 100.0, 100.0), det(300.0, 0.0, 50.0, 50.0)];
    let first = advance(&mut tracks, &two, params, answers(&[30.0, 7.0])).unwrap();
    let lost = json(&first[0]);
    for n in 1..=4 {
        let found = [det(300.0 + n as f64, 0.0, 50.0, 50.0)];
        let out = advance(&mut tracks, &found, params, answers(&[9.0])).unwrap();
        let again = out.iter().filter(|row| json(row) == lost).count();
        assert_eq!(again, if n <= 2 { 1 } else { 0 }, "frame {n}");
        assert_eq!(out.len(), 1 + again);
    }
}
