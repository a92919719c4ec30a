use faceage::boxes::FaceBox;
use faceage::face::{Det, Track};
use faceage::number::Num;
use faceage::rows::{on_picture, read_rows, InRow};

fn num(x: f64) -> Num {
    Num { bits: x.to_bits() }
}

fn boxed(b: (f64, f64, f64, f64)) -> FaceBox {
    (num(b.0), num(b.1), num(b.2), num(b.3))
}

/// A row as it is read: an object with four coordinates, or none.
fn parsed(row: &str) -> Option<InRow> {
    let value: serde_json::Value = serde_json::from_str(row).ok()?;
    let number = |key: &str| value.get(key).and_then(|v| v.as_f64()).map(num);
    Some(InRow {
        class: value.get("class").and_then(|v| v.as_str()).map(|s| s.to_string()),
        conf: number("conf").unwrap_or(num(0.0)),
        x: number("x")?,
        y: number("y")?,
        w: number("w")?,
        h: number("h")?,
    })
}

fn rows(items: &[&str]) -> Vec<Option<InRow>> {
    items.iter().map(|r| parsed(r)).collect()
}

#[test]
fn a_frames_rows_become_the_boxes_to_score() {
    let dets = read_rows(&rows(&[
        r#"{"class":"face","conf":0.93,"x":222,"y":62,"w":417,"h":500}"#,
        r#"{"class":"face","conf":0.4,"x":10,"y":10,"w":20,"h":30,"extra":"ignored"}"#,
    ]));
    assert_eq!(dets.len(), 2);
    assert_eq!(dets[0].b, boxed((222.0, 62.0, 417.0, 500.0)));
    assert_eq!(dets[0].conf, num(0.93));
    assert_eq!(dets[1].b, boxed((10.0, 10.0, 20.0, 30.0)));
}

#[test]
fn rows_that_are_not_faces_are_skipped_rather_than_refused() {
    let dets = read_rows(&rows(&[
        r#"{"shot":4}"#,
        "not json at all",
        r#"{"class":"person","conf":0.9,"x":10,"y":10,"w":20,"h":20}"#,
        r#"{"conf":0.9,"x":10,"y":10,"w":20,"h":20}"#,
        r#"{"class":"face","conf":0.9,"x":1,"y":2,"w":3,"h":4}"#,
        r#"{"class":"face","conf":0.9,"x":10,"y":10,"w":0,"h":20}"#,
    ]));
    assert_eq!(dets.len(), 1, "the one face row, and nothing else");
    assert_eq!(dets[0].b, boxed((1.0, 2.0, 3.0, 4.0)));
}

#[test]
fn a_box_off_the_picture_is_not_followed() {
    let dets = read_rows(&rows(&[
        r#"{"class":"face","x":1,"y":2,"w":3,"h":4}"#,
        r#"{"class":"face","x":-90,"y":2,"w":3,"h":4}"#,
        r#"{"class":"face","x":5,"y":2,"w":3,"h":-4}"#,
        r#"{"class":"face","x":7,"y":2,"w":3,"h":4}"#,
    ]));
    assert_eq!(dets.len(), 3);
    let kept = on_picture(&dets, |b: FaceBox| f64::from_bits(b.0.bits) >= 0.0);
    let xs: Vec<f64> = kept.iter().map(|d| f64::from_bits(d.b.0.bits)).collect();
    assert_eq!(xs, vec![1.0, 7.0]);
}

#[test]
fn a_written_row_reads_back_as_the_face_it_was() {
    let mut track = Track::new(Det {
        conf: num(0.87941),
        b: boxed((-0.4, 62.5, 417.49, 0.5)),
    });
    track.scored(num(11.111));
    let row = track.row();
    let text = format!(
        r#"{{"class":"{}","conf":{},"x":{},"y":{},"w":{},"h":{},"age":{}}}"#,
        row.class,
        f64::from_bits(row.conf.bits),
        row.x,
        row.y,
        row.w,
        row.h,
        f64::from_bits(row.age.bits),
    );
    let dets = read_rows(&rows(&[&text]));
    assert_eq!(dets.len(), 1);
    assert_eq!(dets[0].conf, num(0.8794));
    assert_eq!(dets[0].b, boxed((0.0, 63.0, 417.0, 1.0)));
}

#[test]
fn a_row_that_is_no_object_is_skipped() {
    assert!(read_rows(&rows(&[r#"["face",0.9,1,2,3,4]"#])).is_empty());
}
