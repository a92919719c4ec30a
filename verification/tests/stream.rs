use faceage::boxes::FaceBox;
use faceage::number::Num;
use faceage::params::Given;
use faceage::rows::InRow;
use faceage::stream::{Format, Stream};

fn num(x: f64) -> Num {
    Num { bits: x.to_bits() }
}

fn face(x: f64) -> Option<InRow> {
    Some(InRow {
        class: Some("face".to_string()),
        conf: num(0.5),
        x: num(x),
        y: num(0.0),
        w: num(10.0),
        h: num(10.0),
    })
}

#[test]
fn a_frames_rows_go_in_and_its_faces_come_out() {
    let format = Format::Video {
        pix_fmt: "rgba".to_string(),
        width: 100,
        height: 100,
    };
    let unread = |_: &str| -> Result<Given, String> { panic!("there is nothing to read") };
    let unshown = |_: Num| -> String { panic!("nothing was refused") };
    let mut stream = Stream::open(format, "", unread, unshown).expect("opens");
    let lands = |b: FaceBox| f64::from_bits(b.0.bits) < 100.0;

    let rows = [face(10.0), None, face(300.0), face(50.0)];
    let out = stream
        .run(&rows, lands, |boxes: &[FaceBox]| {
            assert_eq!(boxes.len(), 2, "the one past the picture is not scored");
            Ok(vec![num(8.0), num(44.0)])
        })
        .expect("rows");
    let told: Vec<(i64, f64)> = out.iter().map(|r| (r.x, f64::from_bits(r.age.bits))).collect();
    assert_eq!(told, vec![(10, 8.0), (50, 44.0)]);

    let out = stream
        .run(&[], lands, |_: &[FaceBox]| panic!("nothing is due"))
        .expect("rows");
    assert_eq!(out.len(), 2, "both are held");
    assert!(stream.tracks.iter().all(|t| t.missed == 1 && t.scores.len() == 1));
}

#[test]
fn a_frame_with_nothing_on_the_picture_is_not_scored() {
    let format = Format::Video {
        pix_fmt: "rgba".to_string(),
        width: 100,
        height: 100,
    };
    let unread = |_: &str| -> Result<Given, String> { panic!("there is nothing to read") };
    let unshown = |_: Num| -> String { panic!("nothing was refused") };
    let mut stream = Stream::open(format, " ", unread, unshown).expect("opens");
    let out = stream
        .run(
            &[face(500.0), None],
            |b: FaceBox| f64::from_bits(b.0.bits) < 100.0,
            |_: &[FaceBox]| panic!("there is nothing to score"),
        )
        .expect("rows");
    assert!(out.is_empty());
    assert!(stream.tracks.is_empty());
}
