use gototranscoder::bytereader::ByteReader;
use gototranscoder::bytewriter::ByteWriter;
use gototranscoder::esbmc::{error_message, process_esbmc_file};
use gototranscoder::gbf::ReadError;
use gototranscoder::irep::Irept;

fn node(id: &str) -> Irept {
    Irept::from_str_id(id)
}

fn with_subt(id: &str, subt: Vec<Irept>) -> Irept {
    let mut x = node(id);
    x.subt = subt;
    x
}

fn header(symbols: u32) -> Vec<u8> {
    let mut v = vec![b'G', b'B', b'F', 0, 0, 0, 1];
    v.extend_from_slice(&symbols.to_be_bytes());
    v
}

#[test]
fn write_u32_is_big_endian() {
    let mut w = ByteWriter::new();
    w.write_u32(0x0102_0304);
    w.write_u32(7);
    assert_eq!(w.into_bytes(), vec![1, 2, 3, 4, 0, 0, 0, 7]);
}

#[test]
fn write_string_is_zero_terminated_utf8() {
    let mut w = ByteWriter::new();
    w.write_string("ab");
    w.write_string("é");
    w.write_string("");
    assert_eq!(w.into_bytes(), vec![0x61, 0x62, 0, 0xc3, 0xa9, 0, 0]);
}

#[test]
fn string_reference_is_written_once() {
    let mut w = ByteWriter::new();
    w.write_string_reference("ab");
    w.write_string_reference("cd");
    w.write_string_reference("ab");
    assert_eq!(
        w.into_bytes(),
        vec![0, 0, 0, 0, 0x61, 0x62, 0, 0, 0, 0, 1, 0x63, 0x64, 0, 0, 0, 0, 0]
    );
}

#[test]
fn node_reference_is_written_once() {
    let mut w = ByteWriter::new();
    w.write_reference(&node("x"));
    w.write_reference(&node("x"));
    assert_eq!(w.into_bytes(), vec![0, 0, 0, 0, 0, 0, 0, 0, 0x78, 0, 0, 0, 0, 0, 0]);
}

#[test]
fn empty_goto_binary() {
    let bytes = ByteWriter::write_to_bytes(Vec::new(), Vec::new());
    assert_eq!(bytes, vec![b'G', b'B', b'F', 0, 0, 0, 1, 0, 0, 0, 0, 0, 0, 0, 0]);
}

#[test]
fn goto_binary_of_one_symbol() {
    let x = with_subt("x", vec![node("y")]);
    let bytes = ByteWriter::write_to_bytes(vec![x], Vec::new());
    let mut expected = header(1);
    // node 0, string 0 "x"
    expected.extend_from_slice(&[0, 0, 0, 0, 0, 0, 0, 0, b'x', 0]);
    // child: tag, node 1, string 1 "y", end of node 1
    expected.extend_from_slice(&[b'S', 0, 0, 0, 1, 0, 0, 0, 1, b'y', 0, 0]);
    // end of node 0, no functions
    expected.extend_from_slice(&[0, 0, 0, 0, 0]);
    assert_eq!(bytes, expected);
}

#[test]
fn goto_binary_of_named_children_and_functions() {
    let mut x = node("x");
    x.named_subt.insert(String::from("t"), node("x"));
    x.comments.insert(String::from("c"), node("x"));
    let bytes = ByteWriter::write_to_bytes(Vec::new(), vec![(String::from("main"), x)]);
    let mut expected = header(0);
    expected.extend_from_slice(&[0, 0, 0, 1]);
    expected.extend_from_slice(&[b'm', b'a', b'i', b'n', 0]);
    // node 0 "x" (string 0)
    expected.extend_from_slice(&[0, 0, 0, 0, 0, 0, 0, 0, b'x', 0]);
    // named child "t" (string 1) -> node 1, whose id is string 0
    expected.extend_from_slice(&[b'N', 0, 0, 0, 1, b't', 0, 0, 0, 0, 1, 0, 0, 0, 0, 0]);
    // comment "c" (string 2) -> node 1 again
    expected.extend_from_slice(&[b'C', 0, 0, 0, 2, b'c', 0, 0, 0, 0, 1]);
    expected.push(0);
    assert_eq!(bytes, expected);
}

fn sample_symbols() -> Vec<Irept> {
    let mut a = with_subt("plus", vec![node("a"), node("b"), node("a")]);
    a.named_subt.insert(String::from("#width"), node("32"));
    a.named_subt.insert(String::from("type"), node("signedbv"));
    a.comments.insert(String::from("#location"), node("line 3"));
    let mut b = with_subt("symbol", vec![a.clone(), Irept::get_nil()]);
    b.named_subt.insert(String::from("identifier"), node("main::x"));
    vec![a, b, Irept::get_nil(), node("ünïcode")]
}

fn sample_functions() -> Vec<(String, Irept)> {
    let body = with_subt("code", vec![node("skip"), with_subt("block", vec![node("skip")])]);
    vec![(String::from("main"), body), (String::from("f"), Irept::get_nil())]
}

#[test]
fn reading_back_what_was_written() {
    let symbols = sample_symbols();
    let functions = sample_functions();
    let bytes = ByteWriter::write_to_bytes(symbols.clone(), functions.clone());
    let result = process_esbmc_file(bytes).unwrap();
    assert_eq!(result.symbols_irep, symbols);
    assert_eq!(result.functions_irep.len(), functions.len());
    for (got, want) in result.functions_irep.iter().zip(functions.iter()) {
        assert_eq!(got.0, want.0);
        assert_eq!(got.1, want.1);
    }
}

#[test]
fn rewriting_what_was_read_gives_the_same_bytes() {
    let bytes = ByteWriter::write_to_bytes(sample_symbols(), sample_functions());
    let result = process_esbmc_file(bytes.clone()).unwrap();
    let again = ByteWriter::write_to_bytes(result.symbols_irep, result.functions_irep);
    assert_eq!(again, bytes);
}

#[test]
fn bad_header_is_reported() {
    let r = process_esbmc_file(vec![b'G', b'B', b'X', 0, 0, 0, 1, 0, 0, 0, 0, 0, 0, 0, 0]);
    assert_eq!(r.unwrap_err(), "invalid ESBMC header — is this a .goto file?");
    let r = process_esbmc_file(vec![b'G', b'B']);
    assert_eq!(r.unwrap_err(), "invalid ESBMC header — is this a .goto file?");
}

#[test]
fn bad_version_is_reported() {
    let r = process_esbmc_file(vec![b'G', b'B', b'F', 0, 0, 0, 2, 0, 0, 0, 0, 0, 0, 0, 0]);
    assert_eq!(r.unwrap_err(), "unsupported ESBMC version");
}

#[test]
fn truncated_file_is_reported() {
    let bytes = ByteWriter::write_to_bytes(sample_symbols(), sample_functions());
    let short = bytes[..bytes.len() - 3].to_vec();
    assert_eq!(process_esbmc_file(short).unwrap_err(), error_message(ReadError::UnexpectedEnd));
    assert_eq!(process_esbmc_file(header(1)).unwrap_err(), "unexpected end of the goto binary");
    assert_eq!(process_esbmc_file(vec![b'G', b'B', b'F', 0, 0]).unwrap_err(), "unexpected end of the goto binary");
}

#[test]
fn unknown_tag_is_reported() {
    let mut bytes = header(1);
    bytes.extend_from_slice(&[0, 0, 0, 0, 0, 0, 0, 0, b'x', 0, b'Q']);
    assert_eq!(process_esbmc_file(bytes).unwrap_err(), "unknown field tag in the goto binary");
}

#[test]
fn bad_utf8_is_reported() {
    let mut bytes = header(1);
    bytes.extend_from_slice(&[0, 0, 0, 0, 0, 0, 0, 0, 0xff, 0, 0, 0, 0, 0, 0]);
    assert_eq!(process_esbmc_file(bytes).unwrap_err(), "string in the goto binary is not UTF-8");
}

#[test]
fn error_messages() {
    assert_eq!(error_message(ReadError::BadHeader), "invalid ESBMC header — is this a .goto file?");
    assert_eq!(error_message(ReadError::BadVersion), "unsupported ESBMC version");
    assert_eq!(error_message(ReadError::BadTag), "unknown field tag in the goto binary");
    assert_eq!(error_message(ReadError::BadString), "string in the goto binary is not UTF-8");
}

#[test]
fn later_reference_reads_the_recorded_node() {
    let mut bytes = header(2);
    // symbol 1: node 5 "x" with no fields
    bytes.extend_from_slice(&[0, 0, 0, 5, 0, 0, 0, 9, b'x', 0, 0]);
    // symbol 2: node 5 again
    bytes.extend_from_slice(&[0, 0, 0, 5]);
    bytes.extend_from_slice(&[0, 0, 0, 0]);
    let result = process_esbmc_file(bytes).unwrap();
    assert_eq!(result.symbols_irep, vec![node("x"), node("x")]);
    assert!(result.functions_irep.is_empty());
}

#[test]
fn repeated_name_keeps_the_last_value_and_names_stay_sorted() {
    let mut bytes = header(1);
    bytes.extend_from_slice(&[0, 0, 0, 0, 0, 0, 0, 0, b'x', 0]);
    bytes.extend_from_slice(&[b'N', 0, 0, 0, 1, b'k', 0, 0, 0, 0, 1, 0, 0, 0, 2, b'a', 0, 0]);
    bytes.extend_from_slice(&[b'N', 0, 0, 0, 3, b'j', 0, 0, 0, 0, 2, 0, 0, 0, 4, b'b', 0, 0]);
    bytes.extend_from_slice(&[b'N', 0, 0, 0, 1, 0, 0, 0, 3, 0, 0, 0, 5, b'c', 0, 0]);
    bytes.push(0);
    bytes.extend_from_slice(&[0, 0, 0, 0]);
    let result = process_esbmc_file(bytes).unwrap();
    let x = &result.symbols_irep[0];
    assert_eq!(x.id, "x");
    assert_eq!(x.named_subt.len(), 2);
    assert_eq!(x.named_subt.name(0), "j");
    assert_eq!(*x.named_subt.value(0), node("b"));
    assert_eq!(x.named_subt.name(1), "k");
    assert_eq!(*x.named_subt.value(1), node("c"));
}

#[test]
fn reader_steps() {
    let mut bytes = header(0);
    bytes.extend_from_slice(&[b'h', b'i', 0]);
    bytes.extend_from_slice(&[0, 0, 0, 7, b'z', 0, 0, 0, 0, 7]);
    bytes.extend_from_slice(&[0, 0, 0, 3, 0, 0, 0, 7, 0]);
    let mut r = ByteReader::new(bytes);
    assert!(r.check_esbmc_header().is_ok());
    assert!(r.check_esbmc_version().is_ok());
    assert_eq!(r.read_esbmc_word(), Ok(0));
    assert_eq!(r.read_esbmc_string().unwrap(), "hi");
    assert_eq!(r.read_esbmc_string_reference().unwrap(), "z");
    assert_eq!(r.read_esbmc_string_reference().unwrap(), "z");
    assert_eq!(r.read_esbmc_reference().unwrap(), node("z"));
    assert_eq!(r.read_esbmc_word(), Err(ReadError::UnexpectedEnd));
}

#[test]
fn header_check_consumes_nothing_on_failure() {
    let mut r = ByteReader::new(vec![b'X', b'B', b'F', 0, 0, 0, 1]);
    assert_eq!(r.check_esbmc_header(), Err(ReadError::BadHeader));
    assert_eq!(r.read_esbmc_word(), Ok(0x5842_4600));
}

#[test]
fn names_set_in_any_order_are_read_back_equal() {
    let mut x = node("x");
    x.named_subt.insert(String::from("type"), node("a"));
    x.named_subt.insert(String::from("identifier"), node("b"));
    let mut z = node("x");
    z.named_subt.insert(String::from("identifier"), node("b"));
    z.named_subt.insert(String::from("type"), node("a"));
    assert_eq!(x, z);
    let bytes = ByteWriter::write_to_bytes(vec![x.clone()], Vec::new());
    assert_eq!(bytes, ByteWriter::write_to_bytes(vec![z], Vec::new()));
    let result = process_esbmc_file(bytes).unwrap();
    let y = &result.symbols_irep[0];
    assert_eq!(*y, x);
    assert_eq!(y.named_subt.len(), 2);
    assert_eq!(y.named_subt.name(0), "identifier");
    assert_eq!(y.named_subt.name(1), "type");
}

#[test]
fn read_write_read_gives_the_same_contents() {
    let mut bytes = header(2);
    // symbol 1: node 5 "x" with a child node 8 "y" and a named child "n" that is node 6 "z"
    bytes.extend_from_slice(&[0, 0, 0, 5, 0, 0, 0, 9, b'x', 0]);
    bytes.extend_from_slice(&[b'S', 0, 0, 0, 8, 0, 0, 0, 2, b'y', 0, 0]);
    bytes.extend_from_slice(&[b'N', 0, 0, 0, 3, b'n', 0, 0, 0, 0, 6, 0, 0, 0, 4, b'z', 0, 0]);
    bytes.push(0);
    // symbol 2: node 8 again
    bytes.extend_from_slice(&[0, 0, 0, 8]);
    // one function "f" whose body is node 5
    bytes.extend_from_slice(&[0, 0, 0, 1, b'f', 0, 0, 0, 0, 5]);
    let first = process_esbmc_file(bytes).unwrap();
    let mut expected_x = with_subt("x", vec![node("y")]);
    expected_x.named_subt.insert(String::from("n"), node("z"));
    assert_eq!(first.symbols_irep, vec![expected_x.clone(), node("y")]);
    assert_eq!(first.functions_irep.len(), 1);
    assert_eq!(first.functions_irep[0].0, "f");
    assert_eq!(first.functions_irep[0].1, expected_x);
    let written = ByteWriter::write_to_bytes(first.symbols_irep.clone(), first.functions_irep.clone());
    let second = process_esbmc_file(written).unwrap();
    assert_eq!(second.symbols_irep, first.symbols_irep);
    assert_eq!(second.functions_irep[0].0, first.functions_irep[0].0);
    assert_eq!(second.functions_irep[0].1, first.functions_irep[0].1);
}

#[test]
fn reader_stands_after_the_last_function() {
    let mut bytes = header(1);
    // symbol: node 5 "x" with a child node 8 "y"
    bytes.extend_from_slice(&[0, 0, 0, 5, 0, 0, 0, 9, b'x', 0]);
    bytes.extend_from_slice(&[b'S', 0, 0, 0, 8, 0, 0, 0, 2, b'y', 0, 0]);
    bytes.push(0);
    // no functions
    bytes.extend_from_slice(&[0, 0, 0, 0]);
    // trailing bytes: node 5 again, string 2 again, a word
    bytes.extend_from_slice(&[0, 0, 0, 5, 0, 0, 0, 2, 0, 0, 0, 7]);
    let mut result = process_esbmc_file(bytes).unwrap();
    assert_eq!(result.symbols_irep, vec![with_subt("x", vec![node("y")])]);
    assert!(result.functions_irep.is_empty());
    assert_eq!(result.reader.read_esbmc_reference().unwrap(), with_subt("x", vec![node("y")]));
    assert_eq!(result.reader.read_esbmc_string_reference().unwrap(), "y");
    assert_eq!(result.reader.read_esbmc_word(), Ok(7));
    assert_eq!(result.reader.read_esbmc_word(), Err(ReadError::UnexpectedEnd));
}
