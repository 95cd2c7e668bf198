//! Stroke datasets.
use ink2tex::detexify::{normalize_class, parse, parse_line};
use ink2tex::float::F32;
use ink2tex::latex::symbol_command;

fn v(x: F32) -> f32 {
    f32::from_bits(x.bits)
}

const FIXTURE: &str = r#"// curl https://kirelabs.cloudant.com/detexify/...
{"total_rows": 342410, "offset": 0, "rows": [
  {"id":"hash","key":"amssymb-OT1-_bigstar","value":null,
   "doc":{"_id":"hash","_rev":"1-x","id":"amssymb-OT1-_bigstar",
     "data":[[{"x":223,"y":58,"t":1400702665265},
              {"x":230,"y":70,"t":1400702665300}]]}}
]}"#;

#[test]
fn parses_cloudant_export() {
    let s = parse(FIXTURE).unwrap();
    assert_eq!(s.len(), 1);
    assert_eq!(s[0].class, "latex:amssymb:bigstar");
    assert_eq!(s[0].strokes.len(), 1);
    let pts = &s[0].strokes[0].points;
    assert_eq!(pts.len(), 2);
    assert_eq!((v(pts[0].x), v(pts[0].y)), (223.0, 58.0));
    assert_eq!(pts[0].t_us, 0);
    assert_eq!(pts[1].t_us, 35_000);
}

#[test]
fn parses_flat_jsonl() {
    let jsonl = "{\"key\":\"latin_A\",\"data\":[[{\"x\":1,\"y\":2,\"t\":0}]]}\n\
                 {\"key\":\"latin_B\",\"strokes\":[[{\"x\":3,\"y\":4,\"t\":0}]]}";
    let s = parse(jsonl).unwrap();
    assert_eq!(s.len(), 2);
    assert_eq!(s[0].class, "latin_A");
    assert_eq!(s[1].class, "latin_B");
}

#[test]
fn parses_detexify_next_symbolid() {
    let line = r#"{"id":"sample:x","symbolId":"latex:wasysym:XBox","strokes":[[{"x":0.29,"y":0.37},{"x":0.30,"y":0.50}]]}"#;
    let s = parse(line).unwrap();
    assert_eq!(s.len(), 1);
    assert_eq!(s[0].class, "latex:wasysym:XBox");
    assert_eq!(s[0].strokes[0].points.len(), 2);
    assert_eq!(s[0].strokes[0].points[0].t_us, 0);
}

#[test]
fn parses_array_form_points() {
    let line = r#"{"key":"latex2e-OT1-_zeta","strokes":[[[250,103,1362942716695],[242,103,1362942716985]]]}"#;
    let s = parse(line).unwrap();
    assert_eq!(s.len(), 1);
    assert_eq!(s[0].class, "latex:latex2e:zeta");
    let pts = &s[0].strokes[0].points;
    assert_eq!(pts.len(), 2);
    assert_eq!((v(pts[0].x), v(pts[0].y)), (250.0, 103.0));
    assert_eq!(pts[0].t_us, 0);
    assert_eq!(pts[1].t_us, 290_000);
}

#[test]
fn parse_line_streams_one_record() {
    let s = parse_line(r#"{"key":"latex2e-OT1-_xi","strokes":[[[1,2,0],[3,4,10]]]}"#).unwrap();
    assert_eq!(s.class, "latex:latex2e:xi");
    assert_eq!(s.strokes[0].points.len(), 2);
    assert!(parse_line("").is_none());
    assert!(parse_line("{oops").is_none());
}

#[test]
fn classic_keys_normalize_to_symbolids() {
    let cases = [
        ("latex2e-OT1-_xi", "latex:latex2e:xi"),
        ("latex2e-OT1-_sum", "latex:latex2e:sum"),
        ("amssymb-OT1-_bigstar", "latex:amssymb:bigstar"),
        (
            "amssymb-OT1-_mathcal{P}",
            "latex:amssymb:mathcal-lbrace-P-rbrace",
        ),
        (
            "dsfont-OT1-_mathds{R}",
            "latex:dsfont:mathds-lbrace-R-rbrace",
        ),
        ("latex2e-OT1-_sqrt{}", "latex:latex2e:sqrt-lbrace-rbrace"),
        ("stmaryrd-OMS-_lightning", "latex:stmaryrd:lightning"),
        ("latex:wasysym:XBox", "latex:wasysym:XBox"),
    ];
    for (raw, want) in cases {
        assert_eq!(normalize_class(raw), want, "normalizing {raw}");
    }
}

#[test]
fn aliased_keys_reach_their_canonical_class() {
    assert_eq!(normalize_class("latex2e-OT1-_&"), "latex:latex2e:ampersand");
    assert_eq!(normalize_class("latex2e-OT1-["), "latex:latex2e:lbracket");
    assert_eq!(
        normalize_class("latex2e-OT1-!`"),
        "latex:latex2e:exclamation-grave"
    );
    assert_eq!(
        normalize_class("latex2e-OT1-_not_equiv"),
        "latex:latex2e:not-equiv"
    );
}

#[test]
fn unrecognized_keys_pass_through_untouched() {
    for raw in ["latin_A", "some-OT1-garbage", ""] {
        assert_eq!(normalize_class(raw), raw);
    }
}

#[test]
fn rejects_garbage() {
    assert!(parse("not json at all").is_err());
}

#[test]
fn any_first_key_is_a_plain_one() {
    let token = "$serde_json::private::RawValue";
    let escaped = "\\u0024serde_json::private::RawValue";
    for key in [token, escaped] {
        let s = parse_line(&format!(
            r#"{{ "{key}": [1, {{"{key}": {{}}}}], "key": "a\"{{", "strokes": [[[1,2,0],[3,4,10]]]}}"#
        ))
        .unwrap();
        assert_eq!(s.class, "a\"{");
        assert_eq!(s.strokes[0].points.len(), 2);
        let s = parse_line(&format!(
            r#"{{"{key}":"oops","key":"b","strokes":[[[1,2,0],[3,4,10]]]}}"#
        ))
        .unwrap();
        assert_eq!(s.class, "b");
    }
    assert!(parse_line(r#"{"key":"b","strokes":[[[1,2,0],[3,4,10]]],}"#).is_none());
    assert!(parse_line(r#"{,"key":"b","strokes":[[[1,2,0],[3,4,10]]]}"#).is_none());
    assert!(parse_line(r#"{"key" "b","strokes":[[[1,2,0],[3,4,10]]]}"#).is_none());
    assert!(parse_line(r#"{"key":"b","strokes":[[[1,2,0],[3,4,10]]],"x":{}}"#).is_some());
}

#[test]
fn a_command_with_an_argument_comes_back() {
    for (command, argument) in [("mathcal", "P"), ("sqrt", ""), ("mathbb", "Rbrace")] {
        for package in ["latex2e-OT1", "amssymb-OMS", "latex-T1"] {
            let class = normalize_class(&format!("{package}-_{command}{{{argument}}}"));
            assert_eq!(symbol_command(&class), format!("\\{command}{{{argument}}}"));
        }
    }
}
