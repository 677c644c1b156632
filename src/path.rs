//! Paths seen as their components, the way `std::path::Path` reads them: a
//! leading separator is a root component, a leading `.` segment is the
//! current-directory component, any other `.` segment is dropped, and empty
//! segments (from repeated or trailing separators) do not count.
use vstd::prelude::*;
use vstd::utf8::*;

use crate::text::{
    join, join_segments, lemma_dot_encoding, lemma_encode_concat, lemma_separator_encoding, runs,
    same_text, split_runs, texts, Delimiter, SEPARATOR,
};

verus! {

broadcast use group_utf8_lib;

/// The root component, written as a lone separator.
pub open spec fn root_component() -> Seq<u8> {
    seq![SEPARATOR]
}

/// The current-directory component `.`.
pub open spec fn dot() -> Seq<u8> {
    seq![0x2eu8]
}

/// Whether a path begins with a separator.
pub open spec fn is_absolute(b: Seq<u8>) -> bool {
    b.len() > 0 && b[0] == SEPARATOR
}

/// The segments with every `.` taken out.
pub open spec fn drop_dots(segs: Seq<Seq<u8>>) -> Seq<Seq<u8>>
    decreases segs.len(),
{
    if segs.len() == 0 {
        seq![]
    } else if segs.last() == dot() {
        drop_dots(segs.drop_last())
    } else {
        drop_dots(segs.drop_last()).push(segs.last())
    }
}

/// The components of a path.
pub open spec fn components(b: Seq<u8>) -> Seq<Seq<u8>> {
    let segs = runs(b, Delimiter::Slash);
    if is_absolute(b) {
        seq![root_component()] + drop_dots(segs)
    } else if segs.len() > 0 && segs[0] == dot() {
        seq![dot()] + drop_dots(segs)
    } else {
        drop_dots(segs)
    }
}

/// The path that the components spell: a root component becomes a leading
/// separator, the others are joined by separators.
pub open spec fn render(comps: Seq<Seq<u8>>) -> Seq<u8> {
    if comps.len() > 0 && comps[0] == root_component() {
        root_component() + join(comps.drop_first())
    } else {
        join(comps)
    }
}

/// The parent of a path: its components without the last one; empty where
/// it has no components.
pub open spec fn parent(b: Seq<u8>) -> Seq<u8> {
    let c = components(b);
    if c.len() == 0 {
        seq![]
    } else {
        render(c.drop_last())
    }
}

/// The components of the path `s`.
pub fn components_of(s: &str) -> (r: Vec<String>)
    ensures
        texts(r@) == components(encode_utf8(s@)),
{
    let segs = split_runs(s, Delimiter::Slash);
    let ghost t = texts(segs@);
    let bytes = s.as_bytes();
    let absolute = bytes.len() > 0 && bytes[0] == SEPARATOR;
    proof {
        lemma_separator_encoding();
        lemma_dot_encoding();
    }
    let mut out: Vec<String> = Vec::new();
    if absolute {
        out.push("/".to_owned());
    } else if segs.len() > 0 && same_text(&segs[0], ".") {
        out.push(".".to_owned());
    }
    let ghost head = texts(out@);
    assert(t.take(0) =~= Seq::<Seq<u8>>::empty());
    assert(texts(out@) =~= head + drop_dots(t.take(0)));
    let mut i: usize = 0;
    while i < segs.len()
        invariant
            t == texts(segs@),
            i <= segs@.len(),
            encode_utf8("."@) == dot(),
            texts(out@) == head + drop_dots(t.take(i as int)),
        decreases segs@.len() - i,
    {
        assert(t.take(i + 1).drop_last() =~= t.take(i as int));
        assert(t.take(i + 1).last() == t[i as int]);
        if !same_text(&segs[i], ".") {
            let ghost before = texts(out@);
            out.push(segs[i].clone());
            assert(texts(out@) =~= before.push(t[i as int]));
            assert(head + drop_dots(t.take(i + 1)) =~= (head + drop_dots(t.take(i as int))).push(
                t[i as int],
            ));
        }
        i = i + 1;
    }
    assert(t.take(segs@.len() as int) =~= t);
    out
}

/// The path spelt by the components `comps[from..to]`.
pub fn render_range(comps: &Vec<String>, from: usize, to: usize) -> (r: String)
    requires
        from <= to <= comps@.len(),
    ensures
        encode_utf8(r@) == render(texts(comps@).subrange(from as int, to as int)),
{
    let ghost t = texts(comps@);
    let ghost sub = t.subrange(from as int, to as int);
    proof {
        lemma_separator_encoding();
    }
    if from < to && same_text(&comps[from], "/") {
        assert(sub[0] == t[from as int]);
        let tail = join_segments(comps, from + 1, to);
        assert(sub.drop_first() =~= t.subrange(from + 1, to as int));
        let r = "/".to_owned().concat(tail.as_str());
        proof {
            lemma_encode_concat("/"@, tail@);
        }
        r
    } else {
        proof {
            if from < to {
                assert(sub[0] == t[from as int]);
            }
        }
        join_segments(comps, from, to)
    }
}

/// The parent of the path `a`.
pub fn parent_text(a: &str) -> (r: String)
    ensures
        encode_utf8(r@) == parent(encode_utf8(a@)),
{
    let comps = components_of(a);
    if comps.len() == 0 {
        String::new()
    } else {
        let r = render_range(&comps, 0, comps.len() - 1);
        assert(texts(comps@).subrange(0, comps@.len() - 1) =~= texts(comps@).drop_last());
        r
    }
}

} // verus!
