use ttl_convert::writer::{format_triple, push_escaped, MemoryWriter, RdfWriter};

#[test]
fn new_sink_is_empty() {
    let w = MemoryWriter::new();
    assert!(w.triples.is_empty());
    assert_eq!(w.into_string(), "");
}

#[test]
fn resource_object_is_written_as_it_comes() {
    let mut w = MemoryWriter::new();
    assert!(w.add_triple_raw("<s>", "<p>", "<o>", false).is_ok());
    assert_eq!(w.triples, vec!["<s> <p> <o> .".to_string()]);
    assert_eq!(w.into_string(), "<s> <p> <o> .\n");
}

#[test]
fn literal_object_is_quoted() {
    assert_eq!(format_triple("<s>", "<p>", "plain", true), "<s> <p> \"plain\" .");
    assert_eq!(format_triple("<s>", "<p>", "", true), "<s> <p> \"\" .");
    assert_eq!(format_triple("_:b0", "<p>", "_:b1", false), "_:b0 <p> _:b1 .");
}

#[test]
fn embedded_quote_is_escaped() {
    let mut w = MemoryWriter::new();
    w.add_triple_raw("<s>", "<p>", "He said \"Hi\" & more", true).unwrap();
    let out = w.into_string();
    assert_eq!(out, "<s> <p> \"He said \\\"Hi\\\" & more\" .\n");
    let open = out.find('"').unwrap();
    let close = out.rfind('"').unwrap();
    let span: Vec<char> = out[open + 1..close].chars().collect();
    for i in 0..span.len() {
        if span[i] == '"' {
            assert!(i > 0 && span[i - 1] == '\\');
        }
    }
}

#[test]
fn quote_in_a_resource_is_left_alone() {
    assert_eq!(format_triple("<s>", "<p>", "a\"b", false), "<s> <p> a\"b .");
}

#[test]
fn escaping_prefixes_each_quote() {
    let mut out = String::from(">");
    push_escaped(&mut out, "\"\"a\\\"é");
    assert_eq!(out, ">\\\"\\\"a\\\\\"é");
}

#[test]
fn lines_keep_their_order_and_each_ends_in_a_line_feed() {
    let mut w = MemoryWriter::new();
    w.add_triple_raw("<a>", "<p>", "1", true).unwrap();
    w.add_triple_raw("<b>", "<p>", "<o>", false).unwrap();
    w.add_triple_raw("<a>", "<p>", "1", true).unwrap();
    assert_eq!(w.triples.len(), 3);
    assert_eq!(w.into_string(), "<a> <p> \"1\" .\n<b> <p> <o> .\n<a> <p> \"1\" .\n");
}

#[test]
fn two_triples_give_two_terminated_lines() {
    let mut w = MemoryWriter::new();
    w.add_triple_raw("<a>", "<b>", "<c>", false).unwrap();
    w.add_triple_raw("<d>", "<e>", "f", true).unwrap();
    assert_eq!(w.into_string(), "<a> <b> <c> .\n<d> <e> \"f\" .\n");
}

#[test]
fn splitting_at_line_ends_gives_the_lines_back() {
    let mut w = MemoryWriter::new();
    w.add_triple_raw("<a>", "<p>", "x", true).unwrap();
    w.add_triple_raw("<b>", "<p>", "<o>", false).unwrap();
    let held = w.triples.clone();
    let text = w.into_string();
    let lines: Vec<String> = text.lines().map(|l| l.to_string()).collect();
    assert_eq!(lines, held);

    let empty_line = MemoryWriter { triples: vec![String::new()] };
    assert_eq!(empty_line.into_string(), "\n");
}
