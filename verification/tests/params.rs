use faceage::number::Num;
use faceage::params::{default_every, default_hold, Given, Params};
use faceage::stream::{describe, Format, Stream};
use faceage::text::opens_array;

fn num(x: f64) -> Num {
    Num { bits: x.to_bits() }
}

/// The params out of an object that has these two and no others.
fn read(text: &str) -> Result<Given, String> {
    let value: serde_json::Value = serde_json::from_str(text).map_err(|e| e.to_string())?;
    let object = value.as_object().ok_or("not an object".to_string())?;
    let mut given = Given {
        hold: default_hold(),
        every: default_every(),
    };
    for (key, value) in object {
        let value = num(value.as_f64().ok_or("not a number".to_string())?);
        match key.as_str() {
            "hold" => given.hold = value,
            "every" => given.every = value,
            _ => return Err(format!("unknown field `{key}`")),
        }
    }
    Ok(given)
}

fn show(value: Num) -> String {
    format!("{}", f64::from_bits(value.bits))
}

fn parse_params(params: &str) -> Result<Params, String> {
    faceage::params::parse_params(params, read, show)
}

#[test]
fn params_default_to_what_the_schema_publishes() {
    assert_eq!(parse_params("").expect("empty is the defaults"), Params::default());
    assert_eq!(parse_params("{}").expect("and so is an empty object"), Params::default());
    assert_eq!(
        parse_params(r#"{"hold":0,"every":10}"#).expect("both given"),
        Params { hold: 0, every: 10 }
    );
    assert_eq!(
        parse_params(r#"{"hold":12.0}"#).expect("a whole number spelled as one"),
        Params { hold: 12, every: 1 }
    );
}

#[test]
fn params_outside_the_schema_are_refused_by_name() {
    for bad in [
        r#"{"hold":-1}"#,
        r#"{"hold":601}"#,
        r#"{"every":0}"#,
        r#"{"every":601}"#,
        r#"{"every":2.5}"#,
    ] {
        let error = parse_params(bad).expect_err(bad);
        assert!(error.starts_with("ages "), "{error}");
    }
    assert!(
        parse_params(r#"{"conf":0.3}"#).is_err(),
        "and so is a param this module has none of"
    );
}

#[test]
fn a_refusal_says_what_was_given() {
    assert_eq!(
        parse_params(r#"{"every":2.5}"#).expect_err("a half"),
        "ages needs every a whole number between 1 and 600, got 2.5"
    );
    assert_eq!(
        parse_params(r#"{"hold":601,"every":0}"#).expect_err("the first of them"),
        "ages needs hold a whole number between 0 and 600, got 601"
    );
    assert_eq!(
        parse_params(r#"{"conf":0.3}"#).expect_err("not a param"),
        "ages cannot read its params: unknown field `conf`"
    );
}

#[test]
fn white_space_is_no_params() {
    let never = |_: &str| -> Result<Given, String> { panic!("there is nothing to read") };
    for blank in ["", " ", "\t\r\n", "\u{a0}\u{2003}\u{3000}\u{85}"] {
        assert_eq!(
            faceage::params::parse_params(blank, never, show).expect("blank"),
            Params::default()
        );
    }
    let trimmed = |text: &str| -> Result<Given, String> {
        assert_eq!(text, "{ }");
        read(text)
    };
    assert_eq!(
        faceage::params::parse_params("\u{2028} { } \u{b}", trimmed, show).expect("around"),
        Params::default()
    );
}

#[test]
fn whole_numbers_are_told_from_others() {
    for n in 0..=1200u32 {
        let given = num(n as f64);
        assert_eq!(given.whole(0, 600), if n <= 600 { Some(n) } else { None });
        assert_eq!(num(n as f64 + 0.25).whole(0, 600), None);
        assert_eq!(Num::count(n as u64), given);
    }
    assert_eq!(num(-0.0).whole(0, 600), Some(0), "a zero of either sign");
    assert_eq!(num(4294967295.0).whole(0, u32::MAX), Some(u32::MAX));
    for none in [-1.0, 4294967296.0, 1e300, 1e-300, f64::INFINITY, f64::NAN] {
        assert_eq!(num(none).whole(0, u32::MAX), None);
    }
}

fn rgba() -> Format {
    Format::Video {
        pix_fmt: "rgba".to_string(),
        width: 640,
        height: 480,
    }
}

#[test]
fn a_stream_opens_on_frames_of_its_own_pixels() {
    let stream = Stream::open(rgba(), r#"{"hold":7}"#, read, show).expect("opens");
    assert_eq!((stream.width, stream.height), (640, 480));
    assert_eq!(stream.params, Params { hold: 7, every: 1 });
    assert!(stream.tracks.is_empty());
    assert_eq!(
        Stream::open(Format::Audio, "", read, show).expect_err("sound"),
        "ages reads frames, and this stream is audio"
    );
    let yuv = Format::Video {
        pix_fmt: "yuv420p".to_string(),
        width: 2,
        height: 2,
    };
    assert_eq!(
        Stream::open(yuv, "{\"hold\":-1}", read, show).expect_err("other pixels"),
        "ages does not accept pixel format yuv420p"
    );
    assert!(Stream::open(rgba(), r#"{"hold":-1}"#, read, show).is_err());
}

#[test]
fn params_that_come_to_nothing_change_nothing() {
    let mut stream = Stream::open(rgba(), "", read, show).expect("opens");
    stream.set_params(r#"{"every":9}"#, read, show).expect("set");
    assert_eq!(stream.params, Params { hold: 5, every: 9 });
    assert!(stream.set_params(r#"{"every":0}"#, read, show).is_err());
    assert_eq!(stream.params, Params { hold: 5, every: 9 });
}

#[test]
fn what_is_published_reads_as_what_is_held() {
    let told = describe();
    let params: serde_json::Value = serde_json::from_str(told.params_schema).expect("a schema");
    let held = Params::default();
    assert_eq!(params["properties"]["hold"]["default"], held.hold);
    assert_eq!(params["properties"]["every"]["default"], held.every);
    assert_eq!(params["properties"]["hold"]["maximum"], faceage::params::MOST);
    let rows: serde_json::Value = serde_json::from_str(told.rows_schema).expect("a schema");
    assert_eq!(rows["required"].as_array().expect("a list").len(), 7);
    assert!(!told.pure, "a tracker is hosted serially");
    assert!(told.one_to_one && told.reads_rows && !told.forwards_rows);
    assert_eq!((told.window, told.stride, told.inputs), (1, 1, 1));
    assert_eq!((told.name, told.version), ("ages", "0.1.0"));
    assert_eq!(told.pixel_formats, vec!["rgba"]);
    assert!(told.sample_formats.is_empty() && told.sample_rates.is_empty());
    assert!(told.channel_counts.is_empty() && told.rows_language.is_empty());
}

#[test]
fn a_list_is_told_from_an_object() {
    for list in ["[", " [5,1]", "\t\u{a0}[]"] {
        assert!(opens_array(list), "{list}");
    }
    for other in ["", "  ", "{\"hold\":[]}", "5", " {}"] {
        assert!(!opens_array(other), "{other}");
    }
}
