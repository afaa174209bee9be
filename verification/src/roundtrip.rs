//! Reading back what the writer wrote gives the nodes that were written.
use crate::gbf::{
    empty_reader_state, empty_writer_state, gbf_header, goto_writer_state, parse_functions, parse_goto,
    parse_refs, ser_functions, ser_refs, serialize_goto, GBF_VERSION,
    add_entry, parse_fields, parse_ref, wf_irep, NAMED_TAG, COMMENT_TAG, SUB_TAG,
    be32, be32_value, lemma_nul_position, no_nul, nul_position, parse_cstring, parse_string_ref,
    parse_u32, ser_entries, ser_irep, ser_ref, ser_string, ser_string_ref, ser_subs, ReadError,
    ReaderState, WriterState,
};
use crate::irep::{leaf, IrepV};
use crate::names::{entry_insert, lemma_entry_insert_after_all, names_sorted};
use vstd::prelude::*;
use vstd::utf8::{
    char_u32_cast,
    encode_scalar, encode_utf8, encode_utf8_decode_utf8, encode_utf8_valid_utf8,
    has_width_1_encoding, last_continuation_byte, leading_byte_width_1, leading_byte_width_2,
    leading_byte_width_3, leading_byte_width_4, second_last_continuation_byte,
    third_last_continuation_byte,
};

verus! {

/// Reading the four bytes of a word gives the word back.
pub proof fn lemma_be32_roundtrip(v: u32)
    ensures
        be32_value(be32(v)[0], be32(v)[1], be32(v)[2], be32(v)[3]) == v,
{
    let b0 = (v >> 24u32) as u8;
    let b1 = (v >> 16u32) as u8;
    let b2 = (v >> 8u32) as u8;
    let b3 = v as u8;
    assert(((b0 as u32) << 24u32) | ((b1 as u32) << 16u32) | ((b2 as u32) << 8u32) | (b3 as u32) == v) by (bit_vector)
        requires
            b0 == (v >> 24u32) as u8,
            b1 == (v >> 16u32) as u8,
            b2 == (v >> 8u32) as u8,
            b3 == v as u8,
    ;
}

/// Reading a word from its bytes followed by `tail` gives the word and `tail`.
pub proof fn lemma_parse_u32_roundtrip(v: u32, tail: Seq<u8>)
    ensures
        parse_u32(be32(v) + tail) == Ok::<(u32, Seq<u8>), ReadError>((v, tail)),
{
    lemma_be32_roundtrip(v);
    let s = be32(v) + tail;
    assert(s[0] == be32(v)[0]);
    assert(s[1] == be32(v)[1]);
    assert(s[2] == be32(v)[2]);
    assert(s[3] == be32(v)[3]);
    assert(s.skip(4) =~= tail);
}

proof fn lemma_scalar_bytes_nonzero(c: u32)
    by (bit_vector)
    requires
        c != 0,
    ensures
        has_width_1_encoding(c) ==> leading_byte_width_1(c) != 0,
        leading_byte_width_2(c) != 0,
        leading_byte_width_3(c) != 0,
        leading_byte_width_4(c) != 0,
        last_continuation_byte(c) != 0,
        second_last_continuation_byte(c) != 0,
        third_last_continuation_byte(c) != 0,
{
}

/// The UTF-8 bytes of a string without NUL hold no zero byte.
pub proof fn lemma_encode_no_zero(s: Seq<char>)
    requires
        no_nul(s),
    ensures
        forall|i: int| 0 <= i < encode_utf8(s).len() ==> encode_utf8(s)[i] != 0,
    decreases s.len(),
{
    if s.len() > 0 {
        let c = s[0] as u32;
        assert(s[0] != '\0');
        assert(('\0' as u32) == 0);
        char_u32_cast(s[0], c);
        assert(c != 0);
        lemma_scalar_bytes_nonzero(c);
        let e = encode_scalar(c);
        assert(forall|i: int| 0 <= i < e.len() ==> e[i] != 0);
        assert(no_nul(s.drop_first()));
        lemma_encode_no_zero(s.drop_first());
        let r = encode_utf8(s.drop_first());
        assert(encode_utf8(s) == e + r);
        assert forall|i: int| 0 <= i < encode_utf8(s).len() implies encode_utf8(s)[i] != 0 by {
            if i < e.len() {
                assert(encode_utf8(s)[i] == e[i]);
            } else {
                assert(encode_utf8(s)[i] == r[i - e.len()]);
            }
        }
    }
}

/// Reading a stored string followed by `tail` gives the string and `tail`.
pub proof fn lemma_cstring_roundtrip(s: Seq<char>, tail: Seq<u8>)
    requires
        no_nul(s),
    ensures
        parse_cstring(ser_string(s) + tail) == Ok::<(Seq<char>, Seq<u8>), ReadError>((s, tail)),
{
    let e = encode_utf8(s);
    let b = ser_string(s) + tail;
    lemma_encode_no_zero(s);
    lemma_nul_position(b);
    assert(b[e.len() as int] == 0);
    assert forall|j: int| 0 <= j < e.len() implies b[j] != 0 by {
        assert(b[j] == e[j]);
    }
    assert(nul_position(b) == e.len());
    assert(b.take(e.len() as int) =~= e);
    assert(b.skip(e.len() as int + 1) =~= tail);
    encode_utf8_valid_utf8(s);
    encode_utf8_decode_utf8(s);
}


pub open spec fn max_nat(a: nat, b: nat) -> nat {
    if a >= b {
        a
    } else {
        b
    }
}

/// The depth of a node: a leaf has height 1, a node one more than its
/// highest child, named child or comment.
pub open spec fn height(x: IrepV) -> nat
    decreases x, 1int,
{
    1 + max_nat(heights(x.subt), max_nat(entry_heights(x.named_subt), entry_heights(x.comments)))
}

pub open spec fn heights(s: Seq<IrepV>) -> nat
    decreases s, 0int,
{
    if s.len() == 0 {
        0
    } else {
        max_nat(heights(s.drop_last()), height(s.last()))
    }
}

pub open spec fn entry_heights(m: Seq<(Seq<char>, IrepV)>) -> nat
    decreases m, 0int,
{
    if m.len() == 0 {
        0
    } else {
        max_nat(entry_heights(m.drop_last()), height(m.last().1))
    }
}

proof fn lemma_heights(s: Seq<IrepV>)
    ensures
        forall|i: int| 0 <= i < s.len() ==> height(#[trigger] s[i]) <= heights(s),
    decreases s.len(),
{
    if s.len() > 0 {
        lemma_heights(s.drop_last());
        assert forall|i: int| 0 <= i < s.len() implies height(#[trigger] s[i]) <= heights(s) by {
            if i < s.len() - 1 {
                assert(s[i] == s.drop_last()[i]);
            }
        }
    }
}

proof fn lemma_entry_heights(m: Seq<(Seq<char>, IrepV)>)
    ensures
        forall|i: int| 0 <= i < m.len() ==> height((#[trigger] m[i]).1) <= entry_heights(m),
    decreases m.len(),
{
    if m.len() > 0 {
        lemma_entry_heights(m.drop_last());
        assert forall|i: int| 0 <= i < m.len() implies height((#[trigger] m[i]).1) <= entry_heights(m) by {
            if i < m.len() - 1 {
                assert(m[i] == m.drop_last()[i]);
            }
        }
    }
}

/// A sequence of nodes is no higher than a bound that each of them meets.
pub proof fn lemma_heights_bounded(s: Seq<IrepV>, b: nat)
    requires
        forall|i: int| 0 <= i < s.len() ==> height(#[trigger] s[i]) <= b,
    ensures
        heights(s) <= b,
    decreases s.len(),
{
    if s.len() > 0 {
        assert forall|i: int| 0 <= i < s.drop_last().len() implies height(#[trigger] s.drop_last()[i]) <= b by {
            assert(s.drop_last()[i] == s[i]);
        }
        lemma_heights_bounded(s.drop_last(), b);
        assert(height(s[s.len() - 1]) <= b);
    }
}

/// The entries of a map are no higher than a bound that each of them meets.
pub proof fn lemma_entry_heights_bounded(m: Seq<(Seq<char>, IrepV)>, b: nat)
    requires
        forall|i: int| 0 <= i < m.len() ==> height((#[trigger] m[i]).1) <= b,
    ensures
        entry_heights(m) <= b,
    decreases m.len(),
{
    if m.len() > 0 {
        assert forall|i: int| 0 <= i < m.drop_last().len() implies height((#[trigger] m.drop_last()[i]).1) <= b by {
            assert(m.drop_last()[i] == m[i]);
        }
        lemma_entry_heights_bounded(m.drop_last(), b);
        assert(height(m[m.len() - 1].1) <= b);
    }
}

/// Every child, named child and comment of `x` is lower than `x`.
pub proof fn lemma_children_lower(x: IrepV)
    ensures
        forall|i: int| 0 <= i < x.subt.len() ==> height(#[trigger] x.subt[i]) < height(x),
        forall|i: int| 0 <= i < x.named_subt.len() ==> height((#[trigger] x.named_subt[i]).1) < height(x),
        forall|i: int| 0 <= i < x.comments.len() ==> height((#[trigger] x.comments[i]).1) < height(x),
{
    lemma_heights(x.subt);
    lemma_entry_heights(x.named_subt);
    lemma_entry_heights(x.comments);
}

/// The bytes of a non-empty list of children start with the tag `S`.
proof fn lemma_subs_first_tag(w: WriterState, s: Seq<IrepV>)
    requires
        s.len() > 0,
    ensures
        ser_subs(w, s).1.len() > 0,
        ser_subs(w, s).1[0] == SUB_TAG,
    decreases s.len(),
{
    reveal(ser_ref);
    let (w1, b1) = ser_subs(w, s.drop_last());
    let (w2, b2) = ser_ref(w1, s.last());
    assert(ser_subs(w, s).1 == b1 + seq![SUB_TAG] + b2);
    if s.len() > 1 {
        lemma_subs_first_tag(w, s.drop_last());
        assert((b1 + seq![SUB_TAG] + b2)[0] == b1[0]);
    } else {
        assert(b1 == Seq::<u8>::empty());
        assert((b1 + seq![SUB_TAG] + b2)[0] == SUB_TAG);
    }
}

/// The bytes of a non-empty list of entries start with their tag.
proof fn lemma_entries_first_tag(w: WriterState, m: Seq<(Seq<char>, IrepV)>, tag: u8)
    requires
        m.len() > 0,
    ensures
        ser_entries(w, m, tag).1.len() > 0,
        ser_entries(w, m, tag).1[0] == tag,
    decreases m.len(),
{
    reveal(ser_ref);
    let (w1, b1) = ser_entries(w, m.drop_last(), tag);
    let (w2, b2) = ser_string_ref(w1, m.last().0);
    let (w3, b3) = ser_ref(w2, m.last().1);
    assert(ser_entries(w, m, tag).1 == b1 + seq![tag] + b2 + b3);
    if m.len() > 1 {
        lemma_entries_first_tag(w, m.drop_last(), tag);
        assert((b1 + seq![tag] + b2 + b3)[0] == b1[0]);
    } else {
        assert(b1 == Seq::<u8>::empty());
        assert((b1 + seq![tag] + b2 + b3)[0] == tag);
    }
}

/// The body of a node lists its positional children (each behind `S`), then
/// its named children (each behind `N`), then its comments (each behind
/// `C`), then a zero byte. Taking away the comments, then also the named
/// children, then also the children, takes away a tail of the body: the
/// shorter body, without its final zero, starts the longer one, which goes
/// on with the tag of the part taken away (or ends there).
pub proof fn lemma_node_body_order(w: WriterState, x: IrepV)
    ensures
        ({
            let no_comments = IrepV { comments: Seq::empty(), ..x };
            let only_subt = IrepV { named_subt: Seq::empty(), comments: Seq::empty(), ..x };
            let bare = leaf(x.id);
            let bx = ser_irep(w, x).1;
            let bc = ser_irep(w, no_comments).1;
            let bs = ser_irep(w, only_subt).1;
            let bl = ser_irep(w, bare).1;
            &&& bl.len() >= 1 && bs.len() >= bl.len() && bc.len() >= bs.len() && bx.len() >= bc.len()
            &&& bs.take(bl.len() - 1) == bl.drop_last()
            &&& bs[bl.len() - 1] == (if x.subt.len() > 0 { SUB_TAG } else { 0u8 })
            &&& bc.take(bs.len() - 1) == bs.drop_last()
            &&& bc[bs.len() - 1] == (if x.named_subt.len() > 0 { NAMED_TAG } else { 0u8 })
            &&& bx.take(bc.len() - 1) == bc.drop_last()
            &&& bx[bc.len() - 1] == (if x.comments.len() > 0 { COMMENT_TAG } else { 0u8 })
        }),
{
    let no_comments = IrepV { comments: Seq::empty(), ..x };
    let only_subt = IrepV { named_subt: Seq::empty(), comments: Seq::empty(), ..x };
    let bare = leaf(x.id);
    let (w1, b1) = ser_string_ref(w, x.id);
    let (w2, b2) = ser_subs(w1, x.subt);
    let (w3, b3) = ser_entries(w2, x.named_subt, NAMED_TAG);
    let (w4, b4) = ser_entries(w3, x.comments, COMMENT_TAG);
    let e = Seq::<u8>::empty();
    assert(ser_subs(w1, Seq::<IrepV>::empty()).1 == e);
    assert(ser_entries(w2, Seq::<(Seq<char>, IrepV)>::empty(), NAMED_TAG).1 == e);
    assert(ser_entries(w3, Seq::<(Seq<char>, IrepV)>::empty(), COMMENT_TAG).1 == e);
    assert(ser_entries(w2, Seq::<(Seq<char>, IrepV)>::empty(), COMMENT_TAG).1 == e);
    assert(ser_entries(w1, Seq::<(Seq<char>, IrepV)>::empty(), NAMED_TAG).1 == e);
    assert(ser_entries(w1, Seq::<(Seq<char>, IrepV)>::empty(), COMMENT_TAG).1 == e);
    let bx = ser_irep(w, x).1;
    let bc = ser_irep(w, no_comments).1;
    let bs = ser_irep(w, only_subt).1;
    let bl = ser_irep(w, bare).1;
    assert(bx == b1 + b2 + b3 + b4.push(0u8));
    assert(bc =~= (b1 + b2 + b3).push(0u8));
    assert(bs =~= (b1 + b2).push(0u8));
    assert(bl =~= b1.push(0u8));
    if x.subt.len() > 0 {
        lemma_subs_first_tag(w1, x.subt);
    } else {
        assert(b2 == e);
    }
    if x.named_subt.len() > 0 {
        lemma_entries_first_tag(w2, x.named_subt, NAMED_TAG);
    } else {
        assert(b3 == e);
    }
    if x.comments.len() > 0 {
        lemma_entries_first_tag(w3, x.comments, COMMENT_TAG);
    } else {
        assert(b4 == e);
    }
    assert(bs.take(bl.len() - 1) =~= bl.drop_last());
    assert(bc.take(bs.len() - 1) =~= bs.drop_last());
    assert(bx.take(bc.len() - 1) =~= bc.drop_last());
}

/// `w2` holds the tables of `w` as a prefix.
#[verifier::opaque]
pub open spec fn extends(w: WriterState, w2: WriterState) -> bool {
    &&& w.strings.len() <= w2.strings.len()
    &&& forall|i: int| 0 <= i < w.strings.len() ==> #[trigger] w2.strings[i] == w.strings[i]
    &&& w.ireps.len() <= w2.ireps.len()
    &&& forall|i: int| 0 <= i < w.ireps.len() ==> #[trigger] w2.ireps[i] == w.ireps[i]
}

proof fn lemma_extends_trans(a: WriterState, b: WriterState, c: WriterState)
    requires
        extends(a, b),
        extends(b, c),
    ensures
        extends(a, c),
{
    reveal(extends);
    assert forall|i: int| 0 <= i < a.strings.len() implies #[trigger] c.strings[i] == a.strings[i] by {
        assert(c.strings[i] == b.strings[i]);
    }
    assert forall|i: int| 0 <= i < a.ireps.len() implies #[trigger] c.ireps[i] == a.ireps[i] by {
        assert(c.ireps[i] == b.ireps[i]);
    }
}

proof fn lemma_grow_string_ref(w: WriterState, s: Seq<char>)
    ensures
        extends(w, ser_string_ref(w, s).0),
{
    reveal(extends);
}

/// Writing a node only appends to the writer's tables.
pub proof fn lemma_grow_ref(w: WriterState, x: IrepV)
    ensures
        extends(w, ser_ref(w, x).0),
    decreases x, 1int,
{
    reveal(ser_ref);
    reveal(extends);
    if !w.ireps.contains(x) {
        let w1 = WriterState { strings: w.strings, ireps: w.ireps.push(x) };
        lemma_grow_irep(w1, x);
        lemma_extends_trans(w, w1, ser_irep(w1, x).0);
    }
}

proof fn lemma_grow_irep(w: WriterState, x: IrepV)
    ensures
        extends(w, ser_irep(w, x).0),
    decreases x, 0int,
{
    reveal(ser_ref);
    let (w1, b1) = ser_string_ref(w, x.id);
    let (w2, b2) = ser_subs(w1, x.subt);
    let (w3, b3) = ser_entries(w2, x.named_subt, crate::gbf::NAMED_TAG);
    lemma_grow_string_ref(w, x.id);
    lemma_grow_subs(w1, x.subt);
    lemma_grow_entries(w2, x.named_subt, crate::gbf::NAMED_TAG);
    lemma_grow_entries(w3, x.comments, crate::gbf::COMMENT_TAG);
    lemma_extends_trans(w, w1, w2);
    lemma_extends_trans(w, w2, w3);
    lemma_extends_trans(w, w3, ser_irep(w, x).0);
}

proof fn lemma_grow_subs(w: WriterState, s: Seq<IrepV>)
    ensures
        extends(w, ser_subs(w, s).0),
    decreases s, 0int,
{
    reveal(ser_ref);
    reveal(extends);
    if s.len() > 0 {
        let (w1, b1) = ser_subs(w, s.drop_last());
        lemma_grow_subs(w, s.drop_last());
        lemma_grow_ref(w1, s.last());
        lemma_extends_trans(w, w1, ser_subs(w, s).0);
    }
}

proof fn lemma_grow_entries(w: WriterState, m: Seq<(Seq<char>, IrepV)>, tag: u8)
    ensures
        extends(w, ser_entries(w, m, tag).0),
    decreases m, 0int,
{
    reveal(ser_ref);
    reveal(extends);
    if m.len() > 0 {
        let (w1, b1) = ser_entries(w, m.drop_last(), tag);
        let (w2, b2) = ser_string_ref(w1, m.last().0);
        lemma_grow_entries(w, m.drop_last(), tag);
        lemma_grow_string_ref(w1, m.last().0);
        lemma_grow_ref(w2, m.last().1);
        lemma_extends_trans(w, w1, w2);
        lemma_extends_trans(w, w2, ser_entries(w, m, tag).0);
    }
}


/// The reader tables that correspond to the writer tables `w`, leaving out
/// the nodes at the positions in `pend` (nodes whose bodies are still being
/// read).
pub open spec fn reader_of(w: WriterState, pend: Set<int>) -> ReaderState {
    ReaderState {
        strings: Map::new(|k: u32| (k as int) < w.strings.len(), |k: u32| w.strings[k as int]),
        ireps: Map::new(
            |k: u32| (k as int) < w.ireps.len() && !pend.contains(k as int),
            |k: u32| w.ireps[k as int],
        ),
    }
}

/// No string and no node is twice in the writer's tables.
#[verifier::opaque]
pub open spec fn distinct_tables(w: WriterState) -> bool {
    w.strings.no_duplicates() && w.ireps.no_duplicates()
}

/// Every number the writer handed out fits in a word.
pub open spec fn fits_u32(w: WriterState) -> bool {
    w.strings.len() <= 0x1_0000_0000 && w.ireps.len() <= 0x1_0000_0000
}

/// The nodes at the positions in `pend` are all higher than `h`.
#[verifier::opaque]
pub open spec fn pending_above(w: WriterState, pend: Set<int>, h: nat) -> bool {
    forall|p: int| #[trigger] pend.contains(p) ==> 0 <= p < w.ireps.len() && height(w.ireps[p]) > h
}

proof fn lemma_fits_prefix(w: WriterState, w2: WriterState)
    requires
        extends(w, w2),
        fits_u32(w2),
    ensures
        fits_u32(w),
{
    reveal(extends);
}

proof fn lemma_pending_extends(w: WriterState, w2: WriterState, pend: Set<int>, h: nat)
    requires
        extends(w, w2),
        pending_above(w, pend, h),
    ensures
        pending_above(w2, pend, h),
{
    reveal(extends);
    reveal(pending_above);
    assert forall|p: int| #[trigger] pend.contains(p) implies 0 <= p < w2.ireps.len() && height(w2.ireps[p]) > h by {
        let x = w.ireps[p];
        assert(0 <= p < w.ireps.len() && height(x) > h);
        assert(w2.ireps[p] == x);
    }
}

/// Reading back a string reference gives the string, and the reader's
/// tables follow the writer's.
pub proof fn lemma_string_ref_roundtrip(w: WriterState, pend: Set<int>, s: Seq<char>, tail: Seq<u8>)
    requires
        distinct_tables(w),
        no_nul(s),
        fits_u32(ser_string_ref(w, s).0),
    ensures
        distinct_tables(ser_string_ref(w, s).0),
        parse_string_ref(reader_of(w, pend), ser_string_ref(w, s).1 + tail)
            == Ok::<(ReaderState, Seq<char>, Seq<u8>), ReadError>((reader_of(ser_string_ref(w, s).0, pend), s, tail)),
{
    reveal(distinct_tables);
    let r = reader_of(w, pend);
    if w.strings.contains(s) {
        let k = w.strings.index_of(s);
        assert(0 <= k < w.strings.len());
        assert((k as u32) as int == k);
        lemma_parse_u32_roundtrip(k as u32, tail);
        assert(r.strings.contains_key(k as u32));
        assert(r.strings[k as u32] == s);
    } else {
        let n = w.strings.len();
        let w2 = ser_string_ref(w, s).0;
        assert(w2.strings == w.strings.push(s));
        assert((n as u32) as int == n);
        assert(be32(n as u32) + ser_string(s) + tail =~= be32(n as u32) + (ser_string(s) + tail));
        lemma_parse_u32_roundtrip(n as u32, ser_string(s) + tail);
        assert(!r.strings.contains_key(n as u32));
        lemma_cstring_roundtrip(s, tail);
        assert(r.strings.insert(n as u32, s) =~= reader_of(w2, pend).strings);
        assert(r.ireps =~= reader_of(w2, pend).ireps);
        assert(w2.strings.no_duplicates()) by {
            assert forall|i: int, j: int| 0 <= i < w2.strings.len() && 0 <= j < w2.strings.len() && i != j implies w2.strings[i] != w2.strings[j] by {
                if i < n && j < n {
                } else if i == n {
                    assert(w2.strings[j] == w.strings[j]);
                } else {
                    assert(w2.strings[i] == w.strings[i]);
                }
            }
        }
    }
}


proof fn lemma_pending_empty(w: WriterState, h: nat)
    ensures
        pending_above(w, Set::empty(), h),
{
    reveal(pending_above);
}

proof fn lemma_distinct_empty()
    ensures
        distinct_tables(empty_writer_state()),
{
    reveal(distinct_tables);
}

proof fn lemma_pending_weaken(w: WriterState, pend: Set<int>, h: nat, h2: nat)
    requires
        pending_above(w, pend, h),
        h2 <= h,
    ensures
        pending_above(w, pend, h2),
{
    reveal(pending_above);
}

/// Setting the last entry of `m` after `e` and the rest of `m`, when the
/// names of `e + m` are sorted, appends it.
proof fn lemma_append_new_key(e: Seq<(Seq<char>, IrepV)>, m: Seq<(Seq<char>, IrepV)>)
    requires
        m.len() > 0,
        names_sorted(e + m),
    ensures
        names_sorted(e + m.drop_last()),
        entry_insert(e + m.drop_last(), m.last().0, m.last().1) == e + m,
{
    let em = e + m;
    let ed = e + m.drop_last();
    let k = m.last().0;
    assert(ed =~= em.drop_last());
    assert forall|i: int, j: int| 0 <= i < j < ed.len() implies crate::names::name_less(ed[i].0, ed[j].0) by {
        assert(ed[i] == em[i]);
        assert(ed[j] == em[j]);
    }
    assert forall|i: int| 0 <= i < ed.len() implies crate::names::name_less(#[trigger] ed[i].0, k) by {
        assert(ed[i] == em[i]);
        assert(em[em.len() - 1] == m.last());
    }
    lemma_entry_insert_after_all(ed, k, m.last().1);
    assert(ed.push((k, m.last().1)) =~= em);
}

/// One step of reading fields: a named entry or comment behind `tag`.
proof fn lemma_fields_entry_step(r: ReaderState, tag: u8, rest: Seq<u8>, acc: IrepV)
    requires
        tag == NAMED_TAG || tag == COMMENT_TAG,
        parse_string_ref(r, rest) is Ok,
        parse_ref(parse_string_ref(r, rest)->Ok_0.0, parse_string_ref(r, rest)->Ok_0.2) is Ok,
        parse_string_ref(r, rest)->Ok_0.2.len() <= rest.len(),
        parse_ref(parse_string_ref(r, rest)->Ok_0.0, parse_string_ref(r, rest)->Ok_0.2)->Ok_0.2.len() <= rest.len(),
    ensures
        ({
            let (r1, k, s1) = parse_string_ref(r, rest)->Ok_0;
            let (r2, x, s2) = parse_ref(r1, s1)->Ok_0;
            parse_fields(r, seq![tag] + rest, acc) == parse_fields(r2, s2, add_entry(acc, tag, k, x))
        }),
{
    reveal(parse_ref);
    let t = seq![tag] + rest;
    assert(t[0] == tag);
    assert(t.skip(1) =~= rest);
}

/// The named children (for `NAMED_TAG`) or the comments of `acc`.
pub open spec fn entries_of(acc: IrepV, tag: u8) -> Seq<(Seq<char>, IrepV)> {
    if tag == NAMED_TAG {
        acc.named_subt
    } else {
        acc.comments
    }
}

/// `acc` with its named children (for `NAMED_TAG`) or its comments replaced by `m`.
pub open spec fn with_entries(acc: IrepV, tag: u8, m: Seq<(Seq<char>, IrepV)>) -> IrepV {
    if tag == NAMED_TAG {
        IrepV { named_subt: m, ..acc }
    } else {
        IrepV { comments: m, ..acc }
    }
}

/// Reading back a node reference gives the node, and the reader's tables
/// follow the writer's (except for the nodes in `pend`, whose bodies are
/// still being read and which are all higher than `x`).
#[verifier::spinoff_prover]
#[verifier::rlimit(50)]
pub proof fn lemma_ref_roundtrip(w: WriterState, pend: Set<int>, x: IrepV, tail: Seq<u8>)
    requires
        distinct_tables(w),
        wf_irep(x),
        pending_above(w, pend, height(x)),
        fits_u32(ser_ref(w, x).0),
    ensures
        distinct_tables(ser_ref(w, x).0),
        parse_ref(reader_of(w, pend), ser_ref(w, x).1 + tail)
            == Ok::<(ReaderState, IrepV, Seq<u8>), ReadError>((reader_of(ser_ref(w, x).0, pend), x, tail)),
    decreases x, 1int,
{
    let r = reader_of(w, pend);
    reveal(wf_irep);
    reveal(ser_ref);
    reveal(parse_ref);
    if w.ireps.contains(x) {
        let k = w.ireps.index_of(x);
        assert(0 <= k < w.ireps.len() && w.ireps[k] == x);
        assert((k as u32) as int == k);
        if pend.contains(k) {
            reveal(pending_above);
            assert(height(w.ireps[k]) > height(x));
        }
        lemma_parse_u32_roundtrip(k as u32, tail);
        assert(r.ireps.contains_key(k as u32));
    } else {
        let n = w.ireps.len();
        let w1 = WriterState { strings: w.strings, ireps: w.ireps.push(x) };
        let pend1 = pend.insert(n as int);
        let hx = height(x);
        let (v1, c1) = ser_string_ref(w1, x.id);
        let (v2, c2) = ser_subs(v1, x.subt);
        let (v3, c3) = ser_entries(v2, x.named_subt, NAMED_TAG);
        let (v4, c4) = ser_entries(v3, x.comments, COMMENT_TAG);
        assert(ser_irep(w1, x) == (v4, c1 + c2 + c3 + c4.push(0u8)));
        assert(ser_ref(w, x) == (v4, be32(n as u32) + (c1 + c2 + c3 + c4.push(0u8))));
        // The tables only grow, so every intermediate table fits.
        lemma_grow_string_ref(w1, x.id);
        lemma_grow_subs(v1, x.subt);
        lemma_grow_entries(v2, x.named_subt, NAMED_TAG);
        lemma_grow_entries(v3, x.comments, COMMENT_TAG);
        lemma_extends_trans(v1, v2, v3);
        lemma_extends_trans(v1, v3, v4);
        lemma_extends_trans(v2, v3, v4);
        lemma_extends_trans(w1, v1, v4);
        lemma_extends_trans(w1, v1, v2);
        lemma_extends_trans(w1, v1, v3);
        lemma_fits_prefix(v3, v4);
        lemma_fits_prefix(v2, v4);
        lemma_fits_prefix(v1, v4);
        assert(v4.ireps.len() >= n + 1 && v4.ireps[n as int] == x) by {
            reveal(extends);
        }
        assert(n < 0x1_0000_0000);
        assert((n as u32) as int == n);
        assert(distinct_tables(w1)) by {
            reveal(distinct_tables);
            assert forall|i: int, j: int| 0 <= i < w1.ireps.len() && 0 <= j < w1.ireps.len() && i != j implies w1.ireps[i] != w1.ireps[j] by {
                if i < n && j < n {
                } else if i == n {
                    assert(w1.ireps[j] == w.ireps[j]);
                } else {
                    assert(w1.ireps[i] == w.ireps[i]);
                }
            }
        }
        // While the body is read, `x` is pending and higher than everything in it.
        assert(reader_of(w1, pend1).strings =~= r.strings);
        assert(reader_of(w1, pend1).ireps =~= r.ireps);
        assert(pending_above(w1, pend1, (hx - 1) as nat)) by {
            reveal(pending_above);
            assert forall|p: int| #[trigger] pend1.contains(p) implies 0 <= p < w1.ireps.len() && height(w1.ireps[p]) > (hx - 1) as nat by {
                if p != n {
                    assert(pend.contains(p));
                    assert(w1.ireps[p] == w.ireps[p]);
                }
            }
        }
        lemma_children_lower(x);
        lemma_pending_extends(w1, v1, pend1, (hx - 1) as nat);
        lemma_pending_extends(w1, v2, pend1, (hx - 1) as nat);
        lemma_pending_extends(w1, v3, pend1, (hx - 1) as nat);
        let t4 = seq![0u8] + tail;
        let t3 = c4 + t4;
        let t2 = c3 + t3;
        let t1 = c2 + t2;
        let body = c1 + t1;
        assert(ser_ref(w, x).1 + tail =~= be32(n as u32) + body);
        lemma_parse_u32_roundtrip(n as u32, body);
        assert(!r.ireps.contains_key(n as u32));
        lemma_string_ref_roundtrip(w1, pend1, x.id, t1);
        let acc0 = leaf(x.id);
        lemma_subs_roundtrip(v1, pend1, x.subt, t2, acc0, (hx - 1) as nat);
        let acc2 = IrepV { subt: acc0.subt + x.subt, ..acc0 };
        assert(acc0.subt + x.subt =~= x.subt);
        assert(entries_of(acc2, NAMED_TAG) + x.named_subt =~= x.named_subt);
        lemma_entries_roundtrip(v2, pend1, x.named_subt, NAMED_TAG, t3, acc2, (hx - 1) as nat);
        let acc3 = with_entries(acc2, NAMED_TAG, entries_of(acc2, NAMED_TAG) + x.named_subt);
        assert(entries_of(acc3, COMMENT_TAG) + x.comments =~= x.comments);
        lemma_entries_roundtrip(v3, pend1, x.comments, COMMENT_TAG, t4, acc3, (hx - 1) as nat);
        let acc4 = with_entries(acc3, COMMENT_TAG, entries_of(acc3, COMMENT_TAG) + x.comments);
        assert(acc4 == x);
        assert(t4[0] == 0u8);
        assert(t4.skip(1) =~= tail);
        let r4 = reader_of(v4, pend1);
        assert(parse_fields(r4, t4, acc4) == Ok::<(ReaderState, IrepV, Seq<u8>), ReadError>((r4, x, tail)));
        assert(!pend.contains(n as int)) by {
            reveal(pending_above);
        }
        assert(r4.ireps.insert(n as u32, x) =~= reader_of(v4, pend).ireps);
        assert(r4.strings =~= reader_of(v4, pend).strings);
    }
}

/// Reading back positional children, each behind its tag, appends them to
/// the children of `acc`.
#[verifier::spinoff_prover]
#[verifier::rlimit(50)]
pub proof fn lemma_subs_roundtrip(w: WriterState, pend: Set<int>, s: Seq<IrepV>, tail: Seq<u8>, acc: IrepV, h: nat)
    requires
        distinct_tables(w),
        forall|i: int| 0 <= i < s.len() ==> wf_irep(#[trigger] s[i]) && height(s[i]) <= h,
        pending_above(w, pend, h),
        fits_u32(ser_subs(w, s).0),
    ensures
        distinct_tables(ser_subs(w, s).0),
        parse_fields(reader_of(w, pend), ser_subs(w, s).1 + tail, acc)
            == parse_fields(reader_of(ser_subs(w, s).0, pend), tail, IrepV { subt: acc.subt + s, ..acc }),
    decreases s, 0int,
{
    reveal(ser_ref);
    reveal(parse_ref);
    if s.len() == 0 {
        assert(ser_subs(w, s).1 + tail =~= tail);
        assert(acc.subt + s =~= acc.subt);
    } else {
        let (w1, b1) = ser_subs(w, s.drop_last());
        let (w2, b2) = ser_ref(w1, s.last());
        lemma_grow_subs(w, s.drop_last());
        lemma_grow_ref(w1, s.last());
        lemma_fits_prefix(w1, w2);
        let t1 = seq![SUB_TAG] + (b2 + tail);
        assert(ser_subs(w, s).1 + tail =~= b1 + t1);
        assert forall|i: int| 0 <= i < s.drop_last().len() implies wf_irep(#[trigger] s.drop_last()[i]) && height(s.drop_last()[i]) <= h by {
            assert(s.drop_last()[i] == s[i]);
        }
        lemma_subs_roundtrip(w, pend, s.drop_last(), t1, acc, h);
        let acc1 = IrepV { subt: acc.subt + s.drop_last(), ..acc };
        lemma_pending_extends(w, w1, pend, h);
        assert(wf_irep(s[s.len() - 1]) && height(s[s.len() - 1]) <= h);
        lemma_pending_weaken(w1, pend, h, height(s.last()));
        lemma_ref_roundtrip(w1, pend, s.last(), tail);
        assert(t1[0] == SUB_TAG);
        assert(t1.skip(1) =~= b2 + tail);
        assert(acc1.subt.push(s.last()) =~= acc.subt + s);
    }
}

/// Reading back named entries, each behind `tag`, adds them to the named
/// children (for `NAMED_TAG`) or comments of `acc`; since no name repeats,
/// each is appended.
#[verifier::spinoff_prover]
#[verifier::rlimit(50)]
pub proof fn lemma_entries_roundtrip(
    w: WriterState,
    pend: Set<int>,
    m: Seq<(Seq<char>, IrepV)>,
    tag: u8,
    tail: Seq<u8>,
    acc: IrepV,
    h: nat,
)
    requires
        tag == NAMED_TAG || tag == COMMENT_TAG,
        distinct_tables(w),
        names_sorted(entries_of(acc, tag) + m),
        forall|i: int| 0 <= i < m.len() ==> no_nul((#[trigger] m[i]).0) && wf_irep(m[i].1) && height(m[i].1) <= h,
        pending_above(w, pend, h),
        fits_u32(ser_entries(w, m, tag).0),
    ensures
        distinct_tables(ser_entries(w, m, tag).0),
        parse_fields(reader_of(w, pend), ser_entries(w, m, tag).1 + tail, acc)
            == parse_fields(reader_of(ser_entries(w, m, tag).0, pend), tail, with_entries(acc, tag, entries_of(acc, tag) + m)),
    decreases m, 0int,
{
    reveal(ser_ref);
    reveal(parse_ref);
    let e = entries_of(acc, tag);
    if m.len() == 0 {
        assert(ser_entries(w, m, tag).1 + tail =~= tail);
        assert(e + m =~= e);
    } else {
        let (w1, b1) = ser_entries(w, m.drop_last(), tag);
        let (w2, b2) = ser_string_ref(w1, m.last().0);
        let (w3, b3) = ser_ref(w2, m.last().1);
        lemma_grow_entries(w, m.drop_last(), tag);
        lemma_grow_string_ref(w1, m.last().0);
        lemma_grow_ref(w2, m.last().1);
        lemma_extends_trans(w1, w2, w3);
        lemma_fits_prefix(w2, w3);
        lemma_fits_prefix(w1, w3);
        let t1 = seq![tag] + (b2 + (b3 + tail));
        assert(ser_entries(w, m, tag).1 + tail =~= b1 + t1);
        let k = m.last().0;
        let x = m.last().1;
        let em = e + m;
        let ed = e + m.drop_last();
        lemma_append_new_key(e, m);
        assert forall|i: int| 0 <= i < m.drop_last().len() implies no_nul((#[trigger] m.drop_last()[i]).0) && wf_irep(m.drop_last()[i].1) && height(m.drop_last()[i].1) <= h by {
            assert(m.drop_last()[i] == m[i]);
        }
        lemma_entries_roundtrip(w, pend, m.drop_last(), tag, t1, acc, h);
        let acc1 = with_entries(acc, tag, ed);
        assert(entries_of(acc1, tag) == ed);
        assert(no_nul(m[m.len() - 1].0) && wf_irep(m[m.len() - 1].1) && height(m[m.len() - 1].1) <= h);
        lemma_string_ref_roundtrip(w1, pend, k, b3 + tail);
        lemma_pending_extends(w, w1, pend, h);
        lemma_pending_extends(w1, w2, pend, h);
        lemma_pending_weaken(w2, pend, h, height(x));
        lemma_ref_roundtrip(w2, pend, x, tail);
        lemma_fields_entry_step(reader_of(w1, pend), tag, b2 + (b3 + tail), acc1);
        lemma_append_new_key(e, m);
        assert(add_entry(acc1, tag, k, x) == with_entries(acc, tag, em));
    }
}


proof fn lemma_grow_refs(w: WriterState, s: Seq<IrepV>)
    ensures
        extends(w, ser_refs(w, s).0),
    decreases s.len(),
{
    reveal(extends);
    if s.len() > 0 {
        let (w1, b1) = ser_refs(w, s.drop_last());
        lemma_grow_refs(w, s.drop_last());
        lemma_grow_ref(w1, s.last());
        lemma_extends_trans(w, w1, ser_refs(w, s).0);
    }
}

proof fn lemma_grow_functions(w: WriterState, f: Seq<(Seq<char>, IrepV)>)
    ensures
        extends(w, ser_functions(w, f).0),
    decreases f.len(),
{
    reveal(extends);
    if f.len() > 0 {
        let (w1, b1) = ser_functions(w, f.drop_last());
        lemma_grow_functions(w, f.drop_last());
        lemma_grow_ref(w1, f.last().1);
        lemma_extends_trans(w, w1, ser_functions(w, f).0);
    }
}

/// Reading back a list of node references gives the list.
#[verifier::spinoff_prover]
#[verifier::rlimit(50)]
pub proof fn lemma_refs_roundtrip(w: WriterState, s: Seq<IrepV>, tail: Seq<u8>)
    requires
        distinct_tables(w),
        forall|i: int| 0 <= i < s.len() ==> wf_irep(#[trigger] s[i]),
        fits_u32(ser_refs(w, s).0),
    ensures
        distinct_tables(ser_refs(w, s).0),
        parse_refs(reader_of(w, Set::empty()), ser_refs(w, s).1 + tail, s.len())
            == Ok::<(ReaderState, Seq<IrepV>, Seq<u8>), ReadError>((reader_of(ser_refs(w, s).0, Set::empty()), s, tail)),
    decreases s.len(),
{
    if s.len() == 0 {
        assert(ser_refs(w, s).1 + tail =~= tail);
        assert(s =~= Seq::<IrepV>::empty());
    } else {
        let sd = s.drop_last();
        let x = s.last();
        let w1 = ser_refs(w, sd).0;
        let b1 = ser_refs(w, sd).1;
        let w2 = ser_ref(w1, x).0;
        let b2 = ser_ref(w1, x).1;
        assert(ser_refs(w, s) == (w2, b1 + b2));
        lemma_refs_bytes(w, s, tail);
        lemma_grow_ref(w1, x);
        lemma_fits_prefix(w1, w2);
        assert forall|i: int| 0 <= i < sd.len() implies wf_irep(#[trigger] sd[i]) by {
            assert(sd[i] == s[i]);
        }
        lemma_refs_roundtrip(w, sd, b2 + tail);
        assert(wf_irep(s[s.len() - 1]));
        lemma_pending_empty(w1, height(x));
        lemma_ref_roundtrip(w1, Set::empty(), x, tail);
        lemma_parse_refs_snoc(reader_of(w, Set::empty()), b1 + (b2 + tail), s.len(), reader_of(w1, Set::empty()), sd, b2 + tail, reader_of(w2, Set::empty()), x, tail);
        assert(sd.push(x) =~= s);
    }
}

/// Reading back a list of functions gives the list.
#[verifier::spinoff_prover]
#[verifier::rlimit(50)]
pub proof fn lemma_functions_roundtrip(w: WriterState, f: Seq<(Seq<char>, IrepV)>, tail: Seq<u8>)
    requires
        distinct_tables(w),
        forall|i: int| 0 <= i < f.len() ==> no_nul((#[trigger] f[i]).0) && wf_irep(f[i].1),
        fits_u32(ser_functions(w, f).0),
    ensures
        distinct_tables(ser_functions(w, f).0),
        parse_functions(reader_of(w, Set::empty()), ser_functions(w, f).1 + tail, f.len())
            == Ok::<(ReaderState, Seq<(Seq<char>, IrepV)>, Seq<u8>), ReadError>((reader_of(ser_functions(w, f).0, Set::empty()), f, tail)),
    decreases f.len(),
{
    if f.len() == 0 {
        assert(ser_functions(w, f).1 + tail =~= tail);
        assert(f =~= Seq::<(Seq<char>, IrepV)>::empty());
    } else {
        let (w1, b1) = ser_functions(w, f.drop_last());
        let (w2, b2) = ser_ref(w1, f.last().1);
        lemma_grow_ref(w1, f.last().1);
        lemma_fits_prefix(w1, w2);
        let name = f.last().0;
        assert(ser_functions(w, f).1 + tail =~= b1 + (ser_string(name) + (b2 + tail)));
        assert forall|i: int| 0 <= i < f.drop_last().len() implies no_nul((#[trigger] f.drop_last()[i]).0) && wf_irep(f.drop_last()[i].1) by {
            assert(f.drop_last()[i] == f[i]);
        }
        lemma_functions_roundtrip(w, f.drop_last(), ser_string(name) + (b2 + tail));
        assert(no_nul(f[f.len() - 1].0) && wf_irep(f[f.len() - 1].1));
        lemma_cstring_roundtrip(name, b2 + tail);
        lemma_pending_empty(w1, height(f.last().1));
        lemma_ref_roundtrip(w1, Set::empty(), f.last().1, tail);
        assert(f.drop_last().push((name, f.last().1)) =~= f);
        assert(((f.len() - 1) as nat) == f.drop_last().len());
    }
}

/// Reading back the goto binary that holds `symbols` and `functions` gives
/// `symbols` and `functions`: for nodes whose strings hold no NUL character
/// and whose named children and comments are sorted by name, when there are
/// fewer than 2^32 symbols, functions, distinct strings and distinct nodes.
/// Every `Irept` keeps its named children and comments sorted by name (the
/// invariant of `IrepMap`), so this holds of every NUL-free node that can be
/// built; `ByteWriter::write_to_bytes` states it of the bytes it returns.
pub proof fn lemma_goto_roundtrip(symbols: Seq<IrepV>, functions: Seq<(Seq<char>, IrepV)>)
    requires
        forall|i: int| 0 <= i < symbols.len() ==> wf_irep(#[trigger] symbols[i]),
        forall|i: int| 0 <= i < functions.len() ==> no_nul((#[trigger] functions[i]).0) && wf_irep(functions[i].1),
        symbols.len() <= u32::MAX,
        functions.len() <= u32::MAX,
        fits_u32(goto_writer_state(symbols, functions)),
    ensures
        parse_goto(serialize_goto(symbols, functions))
            == Ok::<(Seq<IrepV>, Seq<(Seq<char>, IrepV)>), ReadError>((symbols, functions)),
{
    let w0 = empty_writer_state();
    let (w1, b1) = ser_refs(w0, symbols);
    let (w2, b2) = ser_functions(w1, functions);
    let ns = symbols.len() as u32;
    let nf = functions.len() as u32;
    let s = serialize_goto(symbols, functions);
    let t3 = be32(nf) + b2;
    let t2 = b1 + t3;
    let t1 = be32(ns) + t2;
    assert(s =~= gbf_header() + (be32(GBF_VERSION) + t1));
    assert(s.take(3) =~= gbf_header());
    assert(s.skip(3) =~= be32(GBF_VERSION) + t1);
    lemma_parse_u32_roundtrip(GBF_VERSION, t1);
    lemma_parse_u32_roundtrip(ns, t2);
    lemma_grow_functions(w1, functions);
    lemma_fits_prefix(w1, w2);
    lemma_distinct_empty();
    assert(reader_of(w0, Set::empty()).strings =~= empty_reader_state().strings);
    assert(reader_of(w0, Set::empty()).ireps =~= empty_reader_state().ireps);
    lemma_refs_roundtrip(w0, symbols, t3);
    lemma_parse_u32_roundtrip(nf, b2);
    assert(b2 + Seq::<u8>::empty() =~= b2);
    lemma_functions_roundtrip(w1, functions, Seq::empty());
}


proof fn lemma_refs_bytes(w: WriterState, s: Seq<IrepV>, tail: Seq<u8>)
    requires
        s.len() > 0,
    ensures
        ser_refs(w, s).1 + tail =~= ser_refs(w, s.drop_last()).1 + (ser_ref(ser_refs(w, s.drop_last()).0, s.last()).1 + tail),
{
}

proof fn lemma_parse_refs_snoc(r0: ReaderState, bytes: Seq<u8>, n: nat, r1: ReaderState, xs: Seq<IrepV>, mid: Seq<u8>, r2: ReaderState, x: IrepV, tail: Seq<u8>)
    requires
        n > 0,
        parse_refs(r0, bytes, (n - 1) as nat) == Ok::<(ReaderState, Seq<IrepV>, Seq<u8>), ReadError>((r1, xs, mid)),
        parse_ref(r1, mid) == Ok::<(ReaderState, IrepV, Seq<u8>), ReadError>((r2, x, tail)),
    ensures
        parse_refs(r0, bytes, n) == Ok::<(ReaderState, Seq<IrepV>, Seq<u8>), ReadError>((r2, xs.push(x), tail)),
{
}


/// A node is written out once: writing an equal node again emits only the
/// number of the first, and the tables stay as they are.
pub proof fn lemma_ref_written_once(w: WriterState, x: IrepV)
    ensures
        ser_ref(w, x).0.ireps.contains(x),
        ser_ref(ser_ref(w, x).0, x) == (ser_ref(w, x).0, be32(ser_ref(w, x).0.ireps.index_of(x) as u32)),
{
    reveal(ser_ref);
    if !w.ireps.contains(x) {
        let wa = WriterState { strings: w.strings, ireps: w.ireps.push(x) };
        lemma_grow_irep(wa, x);
        reveal(extends);
        assert(ser_ref(w, x).0.ireps[w.ireps.len() as int] == x);
    }
}

/// A string is written out once: writing it again emits only the number of
/// the first, and the tables stay as they are.
pub proof fn lemma_string_written_once(w: WriterState, s: Seq<char>)
    ensures
        ser_string_ref(w, s).0.strings.contains(s),
        ser_string_ref(ser_string_ref(w, s).0, s)
            == (ser_string_ref(w, s).0, be32(ser_string_ref(w, s).0.strings.index_of(s) as u32)),
{
    if !w.strings.contains(s) {
        assert(ser_string_ref(w, s).0.strings[w.strings.len() as int] == s);
    }
}

} // verus!
