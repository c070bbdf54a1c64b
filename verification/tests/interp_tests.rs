use checkbe::string_interp::{parse_segments, Segment};

fn render(segments: &[Segment]) -> String {
    let mut out = String::new();
    for s in segments {
        match s {
            Segment::Text(t) => out.push_str(t),
            Segment::Expression(e) => {
                out.push_str("\\(");
                out.push_str(e);
                out.push(')');
            }
        }
    }
    out
}

#[test]
fn splits_text_and_expressions() {
    let segments = parse_segments("Hello, \\(name)! Age: \\(age)").unwrap();
    assert_eq!(segments.len(), 4);
    assert!(matches!(&segments[0], Segment::Text(t) if t == "Hello, "));
    assert!(matches!(&segments[1], Segment::Expression(e) if e == "name"));
    assert!(matches!(&segments[2], Segment::Text(t) if t == "! Age: "));
    assert!(matches!(&segments[3], Segment::Expression(e) if e == "age"));
}

#[test]
fn plain_text_is_one_segment() {
    let segments = parse_segments("no interpolation").unwrap();
    assert_eq!(segments.len(), 1);
    assert!(matches!(&segments[0], Segment::Text(t) if t == "no interpolation"));
}

#[test]
fn nested_parentheses_stay_in_the_expression() {
    let segments = parse_segments("\\(f(a, (b)))").unwrap();
    assert_eq!(segments.len(), 1);
    assert!(matches!(&segments[0], Segment::Expression(e) if e == "f(a, (b))"));
}

#[test]
fn unclosed_interpolation_is_an_error() {
    let error = parse_segments("x \\(y").unwrap_err();
    assert_eq!(error, "Unclosed interpolation: expected ')'");
}

#[test]
fn empty_interpolation_is_an_error() {
    let error = parse_segments("x \\( )").unwrap_err();
    assert_eq!(error, "Interpolation expression cannot be empty");
}

#[test]
fn segments_render_back_to_the_input() {
    let input = "a\\(b)c\\(d + e)";
    let segments = parse_segments(input).unwrap();
    assert_eq!(render(&segments), input);
}
