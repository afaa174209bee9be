//! Reading a whole goto binary.
use crate::bytereader::ByteReader;
use crate::gbf::{
    empty_reader_state, lemma_parse_functions_err, lemma_parse_refs_err, parse_functions,
    parse_goto, parse_goto_end, parse_refs, ReadError,
};
use crate::irep::{entry_views, irep_views, lemma_irep_views_push, Irept, IrepV};
use vstd::prelude::*;

verus! {

/// The contents of a goto binary, and the reader that read them.
#[derive(Clone, Debug)]
pub struct ESBMCParseResult {
    pub reader: ByteReader,
    pub symbols_irep: Vec<Irept>,
    pub functions_irep: Vec<(String, Irept)>,
}

/// The message that reports `e`.
pub open spec fn read_error_message(e: ReadError) -> Seq<char> {
    match e {
        ReadError::BadHeader => "invalid ESBMC header — is this a .goto file?"@,
        ReadError::BadVersion => "unsupported ESBMC version"@,
        ReadError::UnexpectedEnd => "unexpected end of the goto binary"@,
        ReadError::BadTag => "unknown field tag in the goto binary"@,
        ReadError::BadString => "string in the goto binary is not UTF-8"@,
    }
}

/// The message that reports `e` (see [`read_error_message`]).
pub fn error_message(e: ReadError) -> (r: String)
    ensures
        r@ == read_error_message(e),
{
    match e {
        ReadError::BadHeader => "invalid ESBMC header — is this a .goto file?".to_owned(),
        ReadError::BadVersion => "unsupported ESBMC version".to_owned(),
        ReadError::UnexpectedEnd => "unexpected end of the goto binary".to_owned(),
        ReadError::BadTag => "unknown field tag in the goto binary".to_owned(),
        ReadError::BadString => "string in the goto binary is not UTF-8".to_owned(),
    }
}

/// Reads the symbols and functions of the goto binary `file` (see
/// [`parse_goto`]), and returns them with the reader, which stands where the
/// last function ends (see [`parse_goto_end`]); a file that is no goto binary gives the message for the
/// first fault found. A file that does not start with `GBF`, or whose version
/// word is not the one the writer emits, is no goto binary at all: this
/// function returns `Err` with the message of that fault, and a program that
/// reads goto binaries stops there (the program in `app/` panics with it).
#[verifier::loop_isolation(false)]
pub fn process_esbmc_file(file: Vec<u8>) -> (r: Result<ESBMCParseResult, String>)
    ensures
        match parse_goto(file@) {
            Ok((symbols, functions)) => r matches Ok(res) && irep_views(res.symbols_irep@) == symbols
                && entry_views(res.functions_irep@) == functions
                && res.reader.wf()
                && (res.reader.state(), res.reader.remaining()) == parse_goto_end(file@),
            Err(e) => r matches Err(msg) && msg@ == read_error_message(e),
        },
{
    let ghost s = file@;
    let mut reader = ByteReader::new(file);
    match reader.check_esbmc_header() {
        Ok(()) => {},
        Err(e) => return Err(error_message(e)),
    }
    match reader.check_esbmc_version() {
        Ok(()) => {},
        Err(e) => return Err(error_message(e)),
    }
    let ghost s2 = reader.remaining();
    let number_of_symbols = match reader.read_esbmc_word() {
        Ok(n) => n,
        Err(e) => return Err(error_message(e)),
    };
    let ghost s3 = reader.remaining();
    let mut symbols_irep: Vec<Irept> = Vec::new();
    assert(irep_views(symbols_irep@) =~= Seq::<IrepV>::empty());
    for i in 0..number_of_symbols
        invariant
            reader.wf(),
            parse_refs(empty_reader_state(), s3, i as nat) == Ok::<_, ReadError>((reader.state(), irep_views(symbols_irep@), reader.remaining())),
    {
        let symbol = match reader.read_esbmc_reference() {
            Ok(x) => x,
            Err(e) => {
                proof {
                    lemma_parse_refs_err(empty_reader_state(), s3, (i + 1) as nat, number_of_symbols as nat);
                }
                return Err(error_message(e));
            },
        };
        proof {
            lemma_irep_views_push(symbols_irep@, symbol);
        }
        symbols_irep.push(symbol);
    }
    let ghost r1 = reader.state();
    let number_of_functions = match reader.read_esbmc_word() {
        Ok(n) => n,
        Err(e) => return Err(error_message(e)),
    };
    let ghost s4 = reader.remaining();
    let mut functions_irep: Vec<(String, Irept)> = Vec::new();
    assert(entry_views(functions_irep@) =~= Seq::<(Seq<char>, IrepV)>::empty());
    for i in 0..number_of_functions
        invariant
            reader.wf(),
            parse_functions(r1, s4, i as nat) == Ok::<_, ReadError>((reader.state(), entry_views(functions_irep@), reader.remaining())),
    {
        let name = match reader.read_esbmc_string() {
            Ok(x) => x,
            Err(e) => {
                proof {
                    lemma_parse_functions_err(r1, s4, (i + 1) as nat, number_of_functions as nat);
                }
                return Err(error_message(e));
            },
        };
        let function = match reader.read_esbmc_reference() {
            Ok(x) => x,
            Err(e) => {
                proof {
                    lemma_parse_functions_err(r1, s4, (i + 1) as nat, number_of_functions as nat);
                }
                return Err(error_message(e));
            },
        };
        let ghost before = functions_irep@;
        functions_irep.push((name, function));
        assert(functions_irep@.drop_last() =~= before);
    }
    Ok(ESBMCParseResult { reader, symbols_irep, functions_irep })
}

} // verus!
