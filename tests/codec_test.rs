use sdformat_rs::{
    append_i64_text, fixed_fields, format_int_fields, is_space, parse_i64, parse_int_fields,
    split_whitespace, CodecError, RotationText, SdfPose, Vector3i,
};

fn pose(data: &str, degrees: Option<bool>) -> SdfPose {
    SdfPose { data: data.to_string(), relative_to: None, degrees }
}

#[test]
fn vector3i_round_trip() {
    for v in [
        Vector3i::new(1, -2, 3),
        Vector3i::new(0, 0, 0),
        Vector3i::new(i64::MIN, i64::MAX, -1),
    ] {
        assert_eq!(Vector3i::parse(&v.to_text()), Ok(v));
    }
    assert_eq!(Vector3i::new(1, -2, 30).to_text(), "1 -2 30");
}

#[test]
fn vector3i_reads_white_space_and_signs() {
    assert_eq!(Vector3i::parse("  +4\t-5\n6 "), Ok(Vector3i::new(4, -5, 6)));
}

#[test]
fn vector3i_errors() {
    assert_eq!(
        Vector3i::parse("1 2"),
        Err(CodecError::ArityMismatch { expected: 3, found: 2 })
    );
    assert_eq!(
        Vector3i::parse("1 2 3 4"),
        Err(CodecError::ArityMismatch { expected: 3, found: 4 })
    );
    assert_eq!(Vector3i::parse("1 x 3"), Err(CodecError::NumericFormat));
    assert_eq!(Vector3i::parse("1 2.5"), Err(CodecError::NumericFormat));
    assert_eq!(Vector3i::parse(""), Err(CodecError::ArityMismatch { expected: 3, found: 0 }));
}

#[test]
fn i64_text_edges() {
    assert_eq!(parse_i64("9223372036854775807"), Some(i64::MAX));
    assert_eq!(parse_i64("-9223372036854775808"), Some(i64::MIN));
    assert_eq!(parse_i64("9223372036854775808"), None);
    assert_eq!(parse_i64("-9223372036854775809"), None);
    assert_eq!(parse_i64("99999999999999999999999"), None);
    assert_eq!(parse_i64("-"), None);
    assert_eq!(parse_i64("+"), None);
    assert_eq!(parse_i64(""), None);
    assert_eq!(parse_i64("007"), Some(7));
    let mut s = String::from("x=");
    append_i64_text(-120, &mut s);
    assert_eq!(s, "x=-120");
    let mut m = String::new();
    append_i64_text(i64::MIN, &mut m);
    assert_eq!(m, "-9223372036854775808");
}

#[test]
fn int_fields_round_trip() {
    let v = vec![5, -17, 0, 42];
    let t = format_int_fields(&v);
    assert_eq!(t, "5 -17 0 42");
    assert_eq!(parse_int_fields(&t, 4), Ok(v));
    assert_eq!(format_int_fields(&Vec::new()), "");
    assert_eq!(parse_int_fields("3 4", 2), Ok(vec![3, 4]));
}

#[test]
fn splitting_white_space() {
    assert_eq!(split_whitespace("  a bb\u{3000}c\n"), vec!["a", "bb", "c"]);
    assert!(split_whitespace(" \t ").is_empty());
    assert!(is_space('\u{a0}'));
    assert!(!is_space('x'));
}

#[test]
fn fixed_fields_of_a_float_vector() {
    let ts = fixed_fields("0.5 -1e3 2", 3).unwrap();
    let v: Vec<f64> = ts.iter().map(|t| t.parse::<f64>().unwrap()).collect();
    assert_eq!(v, vec![0.5, -1000.0, 2.0]);
    let text = format!("{} {} {}", v[0], v[1], v[2]);
    let back: Vec<f64> =
        fixed_fields(&text, 3).unwrap().iter().map(|t| t.parse::<f64>().unwrap()).collect();
    assert_eq!(back, v);
    assert_eq!(
        fixed_fields("1 2", 3).err(),
        Some(CodecError::ArityMismatch { expected: 3, found: 2 })
    );
}

#[test]
fn pose_arity() {
    assert_eq!(pose("1 2 3 4 5", None).pose_text().err(), Some(CodecError::PoseArity { found: 5 }));
    assert_eq!(
        pose("1 2 3 4 5 6 7 8", None).pose_text().err(),
        Some(CodecError::PoseArity { found: 8 })
    );
    assert!(pose("1 2 3 4 5 6", None).pose_text().is_ok());
    assert!(pose("1 2 3 4 5 6 7", None).pose_text().is_ok());
    assert_eq!(pose("", None).pose_text().err(), Some(CodecError::PoseArity { found: 0 }));
}

#[test]
fn pose_forms_and_units() {
    let p = pose("1 2 3 0.1 0.2 0.3", Some(true)).pose_text().unwrap();
    assert_eq!(p.translation, vec!["1", "2", "3"]);
    match p.rotation {
        RotationText::Euler { roll, pitch, yaw, degrees } => {
            assert_eq!((roll.as_str(), pitch.as_str(), yaw.as_str()), ("0.1", "0.2", "0.3"));
            assert!(degrees);
        }
        _ => panic!("Expected Euler angles"),
    }
    for flag in [None, Some(false)] {
        match pose("1 2 3 4 5 6", flag).pose_text().unwrap().rotation {
            RotationText::Euler { degrees, .. } => assert!(!degrees),
            _ => panic!("Expected Euler angles"),
        }
    }
    let q = SdfPose {
        data: "0 0 0 0.1 0.2 0.3 0.9".to_string(),
        relative_to: Some("world".to_string()),
        degrees: None,
    };
    let q = q.pose_text().unwrap();
    assert_eq!(q.relative_to, "world");
    match q.rotation {
        RotationText::Quaternion { i, j, k, w } => {
            assert_eq!((i.as_str(), j.as_str(), k.as_str(), w.as_str()), ("0.1", "0.2", "0.3", "0.9"));
        }
        _ => panic!("Expected a quaternion"),
    }
    assert_eq!(pose("0 0 0 0 0 0", None).pose_text().unwrap().relative_to, "");
}
