//! Byte-level text handling: every text is modelled by its UTF-8 encoding,
//! and splitting happens only at ASCII delimiter bytes, which are always
//! character boundaries.
use vstd::prelude::*;
use vstd::utf8::*;

verus! {

broadcast use group_utf8_lib;

/// The byte that separates the segments of a path (`/`).
pub const SEPARATOR: u8 = 0x2f;

/// The kinds of delimiter that texts are split on.
#[derive(Clone, Copy, PartialEq, Eq, Structural)]
pub enum Delimiter {
    /// The path separator `/`.
    Slash,
    /// The line feed.
    Newline,
}

pub open spec fn is_delimiter(b: u8, d: Delimiter) -> bool {
    match d {
        Delimiter::Slash => b == SEPARATOR,
        Delimiter::Newline => b == 0x0a,
    }
}

/// The UTF-8 encodings of a sequence of strings.
pub open spec fn texts(v: Seq<String>) -> Seq<Seq<u8>> {
    v.map_values(|s: String| encode_utf8(s@))
}

/// Scanning `b` from the left: the runs completed so far and the open run.
pub open spec fn scan(b: Seq<u8>, d: Delimiter) -> (Seq<Seq<u8>>, Seq<u8>)
    decreases b.len(),
{
    if b.len() == 0 {
        (seq![], seq![])
    } else {
        let p = scan(b.drop_last(), d);
        if is_delimiter(b.last(), d) {
            (if p.1.len() > 0 { p.0.push(p.1) } else { p.0 }, seq![])
        } else {
            (p.0, p.1.push(b.last()))
        }
    }
}

/// The maximal non-empty runs of bytes of `b` that hold no delimiter of kind `d`, in order.
pub open spec fn runs(b: Seq<u8>, d: Delimiter) -> Seq<Seq<u8>> {
    let p = scan(b, d);
    if p.1.len() > 0 {
        p.0.push(p.1)
    } else {
        p.0
    }
}

/// Segments joined by the separator.
pub open spec fn join(segs: Seq<Seq<u8>>) -> Seq<u8>
    decreases segs.len(),
{
    if segs.len() == 0 {
        seq![]
    } else if segs.len() == 1 {
        segs[0]
    } else {
        join(segs.drop_last()) + seq![SEPARATOR] + segs.last()
    }
}

/// Lexicographic order on byte strings (a proper prefix comes first).
pub open spec fn lex_lt(a: Seq<u8>, b: Seq<u8>) -> bool
    decreases a.len(),
{
    if a.len() == 0 {
        b.len() > 0
    } else if b.len() == 0 {
        false
    } else if a[0] != b[0] {
        a[0] < b[0]
    } else {
        lex_lt(a.drop_first(), b.drop_first())
    }
}

pub proof fn lemma_lex_irreflexive(a: Seq<u8>)
    ensures
        !lex_lt(a, a),
    decreases a.len(),
{
    if a.len() > 0 {
        lemma_lex_irreflexive(a.drop_first());
    }
}

pub proof fn lemma_lex_transitive(a: Seq<u8>, b: Seq<u8>, c: Seq<u8>)
    requires
        lex_lt(a, b),
        lex_lt(b, c),
    ensures
        lex_lt(a, c),
    decreases a.len(),
{
    if a.len() > 0 && b.len() > 0 && c.len() > 0 && a[0] == b[0] && b[0] == c[0] {
        lemma_lex_transitive(a.drop_first(), b.drop_first(), c.drop_first());
    }
}

pub proof fn lemma_lex_total(a: Seq<u8>, b: Seq<u8>)
    requires
        a != b,
    ensures
        lex_lt(a, b) || lex_lt(b, a),
    decreases a.len(),
{
    if a.len() > 0 && b.len() > 0 && a[0] == b[0] {
        if a.drop_first() == b.drop_first() {
            assert(a =~= seq![a[0]] + a.drop_first());
            assert(b =~= seq![b[0]] + b.drop_first());
        }
        lemma_lex_total(a.drop_first(), b.drop_first());
    } else if a.len() == 0 && b.len() == 0 {
        assert(a =~= b);
    }
}

pub proof fn lemma_encode_concat(a: Seq<char>, b: Seq<char>)
    ensures
        encode_utf8(a + b) == encode_utf8(a) + encode_utf8(b),
    decreases a.len(),
{
    if a.len() == 0 {
        assert(a + b =~= b);
        assert(encode_utf8(a) + encode_utf8(b) =~= encode_utf8(b));
    } else {
        lemma_encode_concat(a.drop_first(), b);
        assert((a + b).drop_first() =~= a.drop_first() + b);
        assert(encode_utf8(a + b) =~= encode_utf8(a) + encode_utf8(b));
    }
}

proof fn lemma_boundary_after_ascii(b: Seq<u8>, i: int)
    requires
        valid_utf8(b),
        0 <= i < b.len(),
        is_char_boundary(b, i),
        b[i] <= 0x7f,
    ensures
        is_char_boundary(b, i + 1),
    decreases b.len(),
{
    let p = pop_first_scalar(b);
    let l = length_of_first_scalar(b);
    if i == 0 {
        assert(l == 1);
        assert(is_char_boundary(p, 0));
    } else {
        assert(p[i - l] == b[i]);
        lemma_boundary_after_ascii(p, i - l);
    }
}

/// Every delimiter position, and the position after it, is a character boundary.
proof fn lemma_delimiter_boundaries(b: Seq<u8>, i: int, d: Delimiter)
    requires
        valid_utf8(b),
        0 <= i < b.len(),
        is_delimiter(b[i], d),
    ensures
        is_char_boundary(b, i),
        is_char_boundary(b, i + 1),
{
    assert(is_char_boundary(b, i) <==> !is_continuation_byte(b[i]));
    lemma_boundary_after_ascii(b, i);
}

/// The text of `s` between byte positions `start` and `end`.
fn substring(s: &str, start: usize, end: usize) -> (r: String)
    requires
        start <= end <= encode_utf8(s@).len(),
        is_char_boundary(encode_utf8(s@), start as int),
        is_char_boundary(encode_utf8(s@), end as int),
    ensures
        encode_utf8(r@) == encode_utf8(s@).subrange(start as int, end as int),
{
    let ghost b = encode_utf8(s@);
    proof {
        assert(valid_utf8(b));
    }
    let (head, _tail) = s.split_at(end);
    proof {
        let h = encode_utf8(head@);
        assert(valid_utf8(b.subrange(0, end as int)));
        assert(valid_utf8(h));
        if start == end {
            assert(is_char_boundary(h, h.len() as int));
        } else if start > 0 {
            assert(is_char_boundary(b, start as int) <==> !is_continuation_byte(b[start as int]));
            assert(h[start as int] == b[start as int]);
            assert(is_char_boundary(h, start as int) <==> !is_continuation_byte(h[start as int]));
        }
    }
    let (_front, mid) = head.split_at(start);
    assert(encode_utf8(mid@) =~= b.subrange(start as int, end as int));
    mid.to_owned()
}

/// Splits `s` into its maximal non-empty runs free of delimiters of kind `d`.
pub fn split_runs(s: &str, d: Delimiter) -> (r: Vec<String>)
    ensures
        texts(r@) == runs(encode_utf8(s@), d),
{
    let bytes = s.as_bytes();
    let n = bytes.len();
    let ghost b = bytes@;
    proof {
        assert(valid_utf8(b));
        assert(is_char_boundary(b, 0));
    }
    let mut out: Vec<String> = Vec::new();
    let mut start: usize = 0;
    let mut i: usize = 0;
    while i < n
        invariant
            b == encode_utf8(s@),
            b == bytes@,
            valid_utf8(b),
            n == b.len(),
            start <= i <= n,
            is_char_boundary(b, start as int),
            scan(b.take(i as int), d) == (texts(out@), b.subrange(start as int, i as int)),
        decreases n - i,
    {
        let c = bytes[i];
        let ghost prev = b.take(i as int);
        assert(b.take(i + 1).drop_last() =~= prev);
        if is_delimiter_byte(c, d) {
            proof {
                lemma_delimiter_boundaries(b, i as int, d);
            }
            if start < i {
                let piece = substring(s, start, i);
                out.push(piece);
                assert(texts(out@) =~= scan(prev, d).0.push(b.subrange(start as int, i as int)));
            }
            start = i + 1;
            assert(b.subrange(start as int, i + 1) =~= seq![]);
        } else {
            assert(b.subrange(start as int, i + 1) =~= b.subrange(start as int, i as int).push(c));
        }
        i = i + 1;
    }
    assert(b.take(n as int) =~= b);
    proof {
        assert(is_char_boundary(b, n as int));
    }
    if start < n {
        let piece = substring(s, start, n);
        out.push(piece);
        assert(texts(out@) =~= scan(b, d).0.push(b.subrange(start as int, n as int)));
    }
    out
}

pub proof fn lemma_dot_encoding()
    ensures
        encode_utf8("."@) == seq![0x2eu8],
{
    reveal_strlit(".");
    assert("."@ =~= seq!['.']);
    let c: u32 = '.' as u32;
    assert(c == 0x2e);
    assert((c & 0x7f) as u8 == 0x2e) by (bit_vector)
        requires
            c == 0x2e,
    ;
    let one = seq!['.'];
    assert(one[0] as u32 == c);
    assert(has_width_1_encoding(c));
    assert(encode_scalar(c) == seq![leading_byte_width_1(c)]);
    assert(one.drop_first() =~= Seq::<char>::empty());
    assert(encode_utf8(one.drop_first()) == Seq::<u8>::empty());
    assert(encode_utf8(one) == encode_scalar(c) + encode_utf8(one.drop_first()));
    assert(encode_utf8(one) =~= seq![0x2eu8]);
}

pub proof fn lemma_separator_encoding()
    ensures
        encode_utf8("/"@) == seq![SEPARATOR],
{
    reveal_strlit("/");
    assert("/"@ =~= seq!['/']);
    let c: u32 = '/' as u32;
    assert(c == 0x2f);
    assert((c & 0x7f) as u8 == 0x2f) by (bit_vector)
        requires
            c == 0x2f,
    ;
    let one = seq!['/'];
    assert(one[0] as u32 == c);
    assert(has_width_1_encoding(c));
    assert(encode_scalar(c) == seq![leading_byte_width_1(c)]);
    assert(one.drop_first() =~= Seq::<char>::empty());
    assert(encode_utf8(one.drop_first()) == Seq::<u8>::empty());
    assert(encode_utf8(one) == encode_scalar(c) + encode_utf8(one.drop_first()));
    assert(encode_utf8(one) =~= seq![SEPARATOR]);
}

/// The segments `segs[from..to]` joined by the separator.
pub fn join_segments(segs: &Vec<String>, from: usize, to: usize) -> (r: String)
    requires
        from <= to <= segs@.len(),
    ensures
        encode_utf8(r@) == join(texts(segs@).subrange(from as int, to as int)),
{
    let ghost t = texts(segs@);
    let mut acc = String::new();
    let mut i: usize = from;
    proof {
        assert(t.subrange(from as int, from as int) =~= Seq::<Seq<u8>>::empty());
    }
    while i < to
        invariant
            t == texts(segs@),
            from <= i <= to <= segs@.len(),
            encode_utf8(acc@) == join(t.subrange(from as int, i as int)),
        decreases to - i,
    {
        let ghost sub = t.subrange(from as int, i + 1);
        assert(sub.drop_last() =~= t.subrange(from as int, i as int));
        if i == from {
            acc = segs[i].clone();
            assert(sub =~= seq![t[i as int]]);
        } else {
            let ghost before = acc@;
            acc = acc.concat("/");
            acc = acc.concat(segs[i].as_str());
            proof {
                lemma_separator_encoding();
                lemma_encode_concat(before, "/"@);
                lemma_encode_concat(before + "/"@, segs@[i as int]@);
            }
        }
        i = i + 1;
    }
    acc
}

/// Whether `s` is the text `lit`.
pub fn same_text(s: &String, lit: &str) -> (r: bool)
    ensures
        r == (s@ == lit@),
        r == (encode_utf8(s@) == encode_utf8(lit@)),
{
    let t = lit.to_owned();
    let r = *s == t;
    proof {
        if encode_utf8(s@) == encode_utf8(lit@) {
            assert(decode_utf8(encode_utf8(s@)) == s@);
            assert(decode_utf8(encode_utf8(lit@)) == lit@);
        }
    }
    r
}

pub fn is_delimiter_byte(c: u8, d: Delimiter) -> (r: bool)
    ensures
        r == is_delimiter(c, d),
{
    match d {
        Delimiter::Slash => c == SEPARATOR,
        Delimiter::Newline => c == 0x0a,
    }
}

} // verus!
