use n2::trace::{complete_event, trace_footer, trace_header};

#[test]
fn trace_events() {
    assert_eq!(trace_header(), b"[\n");
    assert_eq!(trace_footer(), b"]\n");
    assert_eq!(
        String::from_utf8(complete_event(true, b"load::read", 12, 0, 345)).unwrap(),
        "{\"pid\":0, \"name\":\"load::read\", \"ts\":12, \"tid\": 0, \"ph\":\"X\", \"dur\":345}\n"
    );
    assert_eq!(
        String::from_utf8(complete_event(false, b"cc \"a.c\"", 0, 3, 7)).unwrap(),
        ",{\"pid\":0, \"name\":\"cc \\\"a.c\\\"\", \"ts\":0, \"tid\": 3, \"ph\":\"X\", \"dur\":7}\n"
    );
}
