//! What is read from a goto binary can be written and read back unchanged.
use crate::gbf::{
    add_entry, goto_writer_state, no_nul, nul_position, lemma_nul_position, parse_cstring,
    parse_fields, parse_functions, parse_goto, parse_ref, parse_refs, parse_string_ref, parse_u32,
    serialize_goto, wf_irep, ReaderState, COMMENT_TAG, NAMED_TAG, SUB_TAG,
    empty_reader_state,
};
use crate::irep::{leaf, IrepV};
use crate::names::{entry_insert, lemma_entry_insert_sorted, lemma_insert_position, insert_position};
use crate::roundtrip::{fits_u32, lemma_goto_roundtrip};
use vstd::prelude::*;
use vstd::utf8::{decode_utf8, decode_utf8_encode_utf8, encode_scalar, encode_utf8, valid_utf8};

verus! {

/// Every string and node in the reader's tables is one the format carries
/// faithfully.
pub open spec fn tables_wf(r: ReaderState) -> bool {
    &&& forall|k: u32| #[trigger] r.strings.contains_key(k) ==> no_nul(r.strings[k])
    &&& forall|k: u32| #[trigger] r.ireps.contains_key(k) ==> wf_irep(r.ireps[k])
}

/// UTF-8 bytes without a zero byte encode a string without NUL.
proof fn lemma_zero_free_no_nul(s: Seq<char>)
    requires
        forall|i: int| 0 <= i < encode_utf8(s).len() ==> encode_utf8(s)[i] != 0,
    ensures
        no_nul(s),
    decreases s.len(),
{
    if s.len() > 0 {
        let e = encode_scalar(s[0] as u32);
        let r = encode_utf8(s.drop_first());
        assert(encode_utf8(s) == e + r);
        if s[0] == '\0' {
            assert((s[0] as u32) == 0);
            assert((0u32 & 0x7Fu32) as u8 == 0u8) by (bit_vector);
            assert(e[0] == 0);
            assert(encode_utf8(s)[0] == 0);
        }
        assert forall|i: int| 0 <= i < r.len() implies r[i] != 0 by {
            assert(encode_utf8(s)[e.len() + i] == r[i]);
        }
        lemma_zero_free_no_nul(s.drop_first());
        assert forall|i: int| 0 <= i < s.len() implies s[i] != '\0' by {
            if i > 0 {
                assert(s[i] == s.drop_first()[i - 1]);
            }
        }
    }
}

/// A string read from the file holds no NUL.
pub proof fn lemma_cstring_no_nul(s: Seq<u8>)
    ensures
        parse_cstring(s) matches Ok((t, _)) ==> no_nul(t),
{
    let p = nul_position(s);
    lemma_nul_position(s);
    if p >= 0 && valid_utf8(s.take(p)) {
        let b = s.take(p);
        decode_utf8_encode_utf8(b);
        assert forall|i: int| 0 <= i < encode_utf8(decode_utf8(b)).len() implies encode_utf8(decode_utf8(b))[i] != 0 by {
            assert(b[i] == s[i]);
        }
        lemma_zero_free_no_nul(decode_utf8(b));
    }
}

proof fn lemma_string_ref_wf(r: ReaderState, s: Seq<u8>)
    requires
        tables_wf(r),
    ensures
        parse_string_ref(r, s) matches Ok((r1, t, _)) ==> tables_wf(r1) && no_nul(t),
{
    if let Ok((id, s1)) = parse_u32(s) {
        if !r.strings.contains_key(id) {
            lemma_cstring_no_nul(s1);
        }
    }
}

/// Setting an entry keeps the names sorted, the names free of NUL and the
/// values well formed.
proof fn lemma_entry_insert_wf(m: Seq<(Seq<char>, IrepV)>, k: Seq<char>, x: IrepV)
    requires
        crate::names::names_sorted(m),
        forall|i: int| 0 <= i < m.len() ==> no_nul((#[trigger] m[i]).0) && wf_irep(m[i].1),
        no_nul(k),
        wf_irep(x),
    ensures
        crate::names::names_sorted(entry_insert(m, k, x)),
        forall|i: int| 0 <= i < entry_insert(m, k, x).len()
            ==> no_nul((#[trigger] entry_insert(m, k, x)[i]).0) && wf_irep(entry_insert(m, k, x)[i].1),
{
    lemma_entry_insert_sorted(m, k, x);
    lemma_insert_position(m, k);
    let p = insert_position(m, k);
    let r = entry_insert(m, k, x);
    assert forall|i: int| 0 <= i < r.len() implies no_nul((#[trigger] r[i]).0) && wf_irep(r[i].1) by {
        if p < m.len() && m[p].0 == k {
            if i != p {
                assert(r[i] == m[i]);
            }
        } else if i < p {
            assert(r[i] == m[i]);
        } else if i > p {
            assert(r[i] == m[i - 1]);
        }
    }
}

/// A node read from the file is well formed, and the tables stay so.
pub proof fn lemma_parse_ref_wf(r: ReaderState, s: Seq<u8>)
    requires
        tables_wf(r),
    ensures
        parse_ref(r, s) matches Ok((r1, x, _)) ==> tables_wf(r1) && wf_irep(x),
    decreases s.len(),
{
    reveal(parse_ref);
    if let Ok((id, s1)) = parse_u32(s) {
        if !r.ireps.contains_key(id) {
            lemma_string_ref_wf(r, s1);
            if let Ok((r1, name, s2)) = parse_string_ref(r, s1) {
                if s2.len() < s.len() {
                    assert(wf_irep(leaf(name))) by {
                        reveal(wf_irep);
                    }
                    lemma_parse_fields_wf(r1, s2, leaf(name));
                }
            }
        }
    }
}

/// The fields read into a well-formed node leave it well formed.
pub proof fn lemma_parse_fields_wf(r: ReaderState, s: Seq<u8>, acc: IrepV)
    requires
        tables_wf(r),
        wf_irep(acc),
    ensures
        parse_fields(r, s, acc) matches Ok((r1, x, _)) ==> tables_wf(r1) && wf_irep(x),
    decreases s.len(),
{
    reveal(parse_ref);
    if s.len() > 0 && s[0] != 0 {
        if s[0] == SUB_TAG {
            lemma_parse_ref_wf(r, s.skip(1));
            if let Ok((r1, x, s1)) = parse_ref(r, s.skip(1)) {
                if s1.len() < s.len() {
                    let acc1 = IrepV { subt: acc.subt.push(x), ..acc };
                    assert(wf_irep(acc1)) by {
                        reveal(wf_irep);
                        assert forall|i: int| 0 <= i < acc1.subt.len() implies wf_irep(#[trigger] acc1.subt[i]) by {
                            if i < acc.subt.len() {
                                assert(acc1.subt[i] == acc.subt[i]);
                            }
                        }
                    }
                    lemma_parse_fields_wf(r1, s1, acc1);
                }
            }
        } else if s[0] == NAMED_TAG || s[0] == COMMENT_TAG {
            lemma_string_ref_wf(r, s.skip(1));
            if let Ok((r1, k, s1)) = parse_string_ref(r, s.skip(1)) {
                if s1.len() < s.len() {
                    lemma_parse_ref_wf(r1, s1);
                    if let Ok((r2, x, s2)) = parse_ref(r1, s1) {
                        if s2.len() < s.len() {
                            let acc1 = add_entry(acc, s[0], k, x);
                            assert(wf_irep(acc1)) by {
                                reveal(wf_irep);
                                if s[0] == NAMED_TAG {
                                    lemma_entry_insert_wf(acc.named_subt, k, x);
                                } else {
                                    lemma_entry_insert_wf(acc.comments, k, x);
                                }
                            }
                            lemma_parse_fields_wf(r2, s2, acc1);
                        }
                    }
                }
            }
        }
    }
}

proof fn lemma_parse_refs_wf(r: ReaderState, s: Seq<u8>, n: nat)
    requires
        tables_wf(r),
    ensures
        parse_refs(r, s, n) matches Ok((r1, xs, _)) ==> tables_wf(r1) && xs.len() == n
            && forall|i: int| 0 <= i < xs.len() ==> wf_irep(#[trigger] xs[i]),
    decreases n,
{
    if n > 0 {
        lemma_parse_refs_wf(r, s, (n - 1) as nat);
        if let Ok((r1, xs, s1)) = parse_refs(r, s, (n - 1) as nat) {
            lemma_parse_ref_wf(r1, s1);
            if let Ok((r2, x, s2)) = parse_ref(r1, s1) {
                let ys = xs.push(x);
                assert forall|i: int| 0 <= i < ys.len() implies wf_irep(#[trigger] ys[i]) by {
                    if i < xs.len() {
                        assert(ys[i] == xs[i]);
                    }
                }
            }
        }
    }
}

proof fn lemma_parse_functions_wf(r: ReaderState, s: Seq<u8>, n: nat)
    requires
        tables_wf(r),
    ensures
        parse_functions(r, s, n) matches Ok((r1, fs, _)) ==> tables_wf(r1) && fs.len() == n
            && forall|i: int| 0 <= i < fs.len() ==> no_nul((#[trigger] fs[i]).0) && wf_irep(fs[i].1),
    decreases n,
{
    if n > 0 {
        lemma_parse_functions_wf(r, s, (n - 1) as nat);
        if let Ok((r1, fs, s1)) = parse_functions(r, s, (n - 1) as nat) {
            lemma_cstring_no_nul(s1);
            if let Ok((name, s2)) = parse_cstring(s1) {
                lemma_parse_ref_wf(r1, s2);
                if let Ok((r2, x, s3)) = parse_ref(r1, s2) {
                    let gs = fs.push((name, x));
                    assert forall|i: int| 0 <= i < gs.len() implies no_nul((#[trigger] gs[i]).0) && wf_irep(gs[i].1) by {
                        if i < fs.len() {
                            assert(gs[i] == fs[i]);
                        }
                    }
                }
            }
        }
    }
}

/// Everything read from a goto binary is well formed: its strings hold no
/// NUL and the named children and comments of every node are sorted by name.
pub proof fn lemma_parse_goto_wf(s: Seq<u8>)
    ensures
        parse_goto(s) matches Ok((symbols, functions)) ==> {
            &&& symbols.len() <= u32::MAX
            &&& functions.len() <= u32::MAX
            &&& forall|i: int| 0 <= i < symbols.len() ==> wf_irep(#[trigger] symbols[i])
            &&& forall|i: int| 0 <= i < functions.len() ==> no_nul((#[trigger] functions[i]).0) && wf_irep(functions[i].1)
        },
{
    assert(tables_wf(empty_reader_state()));
    if s.len() >= 3 && s.take(3) == crate::gbf::gbf_header() {
        if let Ok((version, s1)) = parse_u32(s.skip(3)) {
            if let Ok((n, s2)) = parse_u32(s1) {
                lemma_parse_refs_wf(empty_reader_state(), s2, n as nat);
                if let Ok((r1, symbols, s3)) = parse_refs(empty_reader_state(), s2, n as nat) {
                    if let Ok((m, s4)) = parse_u32(s3) {
                        lemma_parse_functions_wf(r1, s4, m as nat);
                    }
                }
            }
        }
    }
}

/// Reading a goto binary, writing what was read, and reading that again
/// gives what was read the first time (when the writer's numbers fit in a
/// word).
pub proof fn lemma_read_write_read(s: Seq<u8>)
    requires
        parse_goto(s) is Ok,
        fits_u32(goto_writer_state(parse_goto(s)->Ok_0.0, parse_goto(s)->Ok_0.1)),
    ensures
        parse_goto(serialize_goto(parse_goto(s)->Ok_0.0, parse_goto(s)->Ok_0.1)) == parse_goto(s),
{
    lemma_parse_goto_wf(s);
    lemma_goto_roundtrip(parse_goto(s)->Ok_0.0, parse_goto(s)->Ok_0.1);
}

} // verus!
