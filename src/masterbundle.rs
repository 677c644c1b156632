//! A bundle's descriptor (`MasterBundle.dat`) and manifest, the filtering of
//! the manifest's assets, and the directories that the assets live in.
use itertools::Itertools;
use vstd::prelude::*;
use vstd::utf8::*;

use crate::path::{components, components_of, parent, parent_text, render, render_range};
use crate::text::{lex_lt, runs, same_text, split_runs, texts, Delimiter};

verus! {

broadcast use group_utf8_lib, vstd::seq_lib::group_to_multiset_ensures;

/// Name of the descriptor file inside a bundle root.
pub const MASTERBUNDLE_FILE: &'static str = "MasterBundle.dat";

/// Extension of the manifest file, which is named after the bundle.
pub const MANIFEST_EXTENSION: &'static str = ".manifest";

/// The descriptor field that names the bundle.
pub open spec fn name_field() -> Seq<char> {
    "Asset_Bundle_Name"@
}

/// The descriptor field that gives the asset prefix.
pub open spec fn prefix_field() -> Seq<char> {
    "Asset_Prefix"@
}

/// First path segments whose assets are left out.
pub const DISALLOWED_PATHS: [&'static str; 8] = [
    "Objects",
    "Effects",
    "Terrain",
    "Assets",
    "Grass",
    "Trees",
    "PBSNPCS",
    "Logs",
];

/// Unicode White_Space.
pub open spec fn is_whitespace(c: char) -> bool {
    let u = c as u32;
    ||| 0x09 <= u <= 0x0d
    ||| u == 0x20
    ||| u == 0x85
    ||| u == 0xa0
    ||| u == 0x1680
    ||| 0x2000 <= u <= 0x200a
    ||| u == 0x2028
    ||| u == 0x2029
    ||| u == 0x202f
    ||| u == 0x205f
    ||| u == 0x3000
}

/// Scanning `s` from the left: the words completed so far and the open word.
pub open spec fn word_scan(s: Seq<char>) -> (Seq<Seq<char>>, Seq<char>)
    decreases s.len(),
{
    if s.len() == 0 {
        (seq![], seq![])
    } else {
        let p = word_scan(s.drop_last());
        if is_whitespace(s.last()) {
            (if p.1.len() > 0 { p.0.push(p.1) } else { p.0 }, seq![])
        } else {
            (p.0, p.1.push(s.last()))
        }
    }
}

/// The maximal non-empty runs of characters of `s` without whitespace, in order.
pub open spec fn words(s: Seq<char>) -> Seq<Seq<char>> {
    let p = word_scan(s);
    if p.1.len() > 0 {
        p.0.push(p.1)
    } else {
        p.0
    }
}

/// Relies on str::split_whitespace: the sub-slices of `s` separated by any
/// amount of Unicode White_Space, without empty ones, in order.
#[verifier::external_body]
fn split_whitespace(s: &str) -> (r: Vec<String>)
    ensures
        r@.map_values(|t: String| t@) == words(s@),
{
    s.split_whitespace().map(String::from).collect()
}

/// First path segments whose assets are left out (exact, case-sensitive):
/// those of `DISALLOWED_PATHS`.
pub open spec fn is_disallowed(seg: Seq<char>) -> bool {
    ||| seg == "Objects"@
    ||| seg == "Effects"@
    ||| seg == "Terrain"@
    ||| seg == "Assets"@
    ||| seg == "Grass"@
    ||| seg == "Trees"@
    ||| seg == "PBSNPCS"@
    ||| seg == "Logs"@
}

/// The value of the last line of `lines` whose first word is `field`: its
/// second word, or empty where it has none; empty where no line has the field.
pub open spec fn field_value(lines: Seq<Seq<u8>>, field: Seq<char>) -> Seq<char>
    decreases lines.len(),
{
    if lines.len() == 0 {
        seq![]
    } else {
        let t = words(decode_utf8(lines.last()));
        if t.len() > 0 && t[0] == field {
            if t.len() > 1 {
                t[1]
            } else {
                seq![]
            }
        } else {
            field_value(lines.drop_last(), field)
        }
    }
}

/// The lines of a descriptor text.
pub open spec fn descriptor_lines(text: Seq<u8>) -> Seq<Seq<u8>> {
    runs(text, Delimiter::Newline)
}

/// The path components of `entry` after those of `prefix`, where `entry`
/// begins with all of them.
pub open spec fn strip_prefix(entry: Seq<u8>, prefix: Seq<u8>) -> Option<Seq<Seq<u8>>> {
    let es = components(entry);
    let ps = components(prefix);
    if ps.len() <= es.len() && es.subrange(0, ps.len() as int) == ps {
        Some(es.subrange(ps.len() as int, es.len() as int))
    } else {
        None
    }
}

/// A stripped asset is kept unless its first component is disallowed.
pub open spec fn is_kept(rest: Seq<Seq<u8>>) -> bool {
    rest.len() == 0 || !is_disallowed(decode_utf8(rest[0]))
}

/// The assets that survive the prefix and the denylist, in manifest order,
/// each as the path its remaining components spell.
pub open spec fn filter_assets(entries: Seq<Seq<u8>>, prefix: Seq<u8>) -> Seq<Seq<u8>>
    decreases entries.len(),
{
    if entries.len() == 0 {
        seq![]
    } else {
        let prev = filter_assets(entries.drop_last(), prefix);
        match strip_prefix(entries.last(), prefix) {
            Some(rest) => if is_kept(rest) {
                prev.push(render(rest))
            } else {
                prev
            },
            None => prev,
        }
    }
}

/// A parent that counts as a directory: neither empty nor `.`.
pub open spec fn is_directory(d: Seq<u8>) -> bool {
    d.len() > 0 && d != seq![0x2eu8]
}

/// The directories that hold at least one of `assets`.
pub open spec fn directories(assets: Seq<Seq<u8>>) -> Set<Seq<u8>> {
    Set::new(
        |d: Seq<u8>|
            is_directory(d) && exists|j: int| 0 <= j < assets.len() && parent(assets[j]) == d,
    )
}

/// `s` with each run of equal adjacent entries collapsed to one.
pub open spec fn collapse_adjacent(s: Seq<Seq<u8>>) -> Seq<Seq<u8>>
    decreases s.len(),
{
    if s.len() == 0 {
        seq![]
    } else {
        let p = collapse_adjacent(s.drop_last());
        if p.len() > 0 && p.last() == s.last() {
            p
        } else {
            p.push(s.last())
        }
    }
}

/// Ascending with no two equal entries.
pub open spec fn strictly_sorted(s: Seq<Seq<u8>>) -> bool {
    forall|a: int, b: int| 0 <= a < b < s.len() ==> lex_lt(s[a], s[b])
}


/// `asset` is what `entry` leaves after the prefix and the denylist.
pub open spec fn produces(entry: Seq<u8>, prefix: Seq<u8>, asset: Seq<u8>) -> bool {
    match strip_prefix(entry, prefix) {
        Some(rest) => is_kept(rest) && asset == render(rest),
        None => false,
    }
}

proof fn lemma_filter_origin(entries: Seq<Seq<u8>>, prefix: Seq<u8>)
    ensures
        forall|k: int|
            0 <= k < filter_assets(entries, prefix).len() ==> exists|j: int|
                0 <= j < entries.len() && produces(
                    entries[j],
                    prefix,
                    #[trigger] filter_assets(entries, prefix)[k],
                ),
    decreases entries.len(),
{
    if entries.len() > 0 {
        let init = entries.drop_last();
        lemma_filter_origin(init, prefix);
        let prev = filter_assets(init, prefix);
        let f = filter_assets(entries, prefix);
        assert forall|k: int| 0 <= k < f.len() implies exists|j: int|
            0 <= j < entries.len() && produces(entries[j], prefix, #[trigger] f[k]) by {
            if k < prev.len() {
                assert(f[k] == prev[k]);
                let j = choose|j: int| 0 <= j < init.len() && produces(init[j], prefix, prev[k]);
                assert(entries[j] == init[j]);
            } else {
                assert(produces(entries[entries.len() - 1], prefix, f[k]));
            }
        }
    }
}

/// `asset` is the path spelt by the components of `entry` after those of
/// `prefix`, and `entry` begins with those.
pub open spec fn stripped_from(entry: Seq<u8>, prefix: Seq<u8>, asset: Seq<u8>) -> bool {
    match strip_prefix(entry, prefix) {
        Some(rest) => asset == render(rest),
        None => false,
    }
}

/// Every surviving asset comes from a manifest entry that begins with the
/// components of the prefix, and is what remains of it once they are taken
/// off the front: an entry that does not begin with the prefix never survives.
pub proof fn lemma_survivors_are_stripped_entries(entries: Seq<Seq<u8>>, prefix: Seq<u8>)
    ensures
        forall|k: int|
            0 <= k < filter_assets(entries, prefix).len() ==> exists|j: int|
                0 <= j < entries.len() && stripped_from(
                    entries[j],
                    prefix,
                    #[trigger] filter_assets(entries, prefix)[k],
                ),
{
    lemma_filter_origin(entries, prefix);
    let f = filter_assets(entries, prefix);
    assert forall|k: int| 0 <= k < f.len() implies exists|j: int|
        0 <= j < entries.len() && stripped_from(entries[j], prefix, #[trigger] f[k]) by {
        let j = choose|j: int| 0 <= j < entries.len() && produces(entries[j], prefix, f[k]);
        assert(stripped_from(entries[j], prefix, f[k]));
    }
}

/// No surviving asset has a first component on the denylist: each is what
/// some entry leaves after the prefix, with a first component that passes.
pub proof fn lemma_survivors_not_disallowed(entries: Seq<Seq<u8>>, prefix: Seq<u8>)
    ensures
        forall|k: int|
            0 <= k < filter_assets(entries, prefix).len() ==> exists|j: int|
                0 <= j < entries.len() && produces(
                    entries[j],
                    prefix,
                    #[trigger] filter_assets(entries, prefix)[k],
                ),
{
    lemma_filter_origin(entries, prefix);
}

/// A field that no line of the descriptor names reads as empty, whatever
/// else the lines hold.
pub proof fn lemma_missing_field_is_empty(lines: Seq<Seq<u8>>, field: Seq<char>)
    requires
        forall|i: int|
            0 <= i < lines.len() ==> words(decode_utf8(#[trigger] lines[i])).len() == 0 || words(
                decode_utf8(lines[i]),
            )[0] != field,
    ensures
        field_value(lines, field) == Seq::<char>::empty(),
    decreases lines.len(),
{
    if lines.len() > 0 {
        let init = lines.drop_last();
        assert forall|i: int| 0 <= i < init.len() implies words(decode_utf8(#[trigger] init[i])).len()
            == 0 || words(decode_utf8(init[i]))[0] != field by {
            assert(init[i] == lines[i]);
        }
        assert(lines.last() == lines[lines.len() - 1]);
        lemma_missing_field_is_empty(init, field);
    }
}

/// Two ascending lists without repeats that hold the same entries are equal.
proof fn lemma_sorted_same_entries(a: Seq<Seq<u8>>, b: Seq<Seq<u8>>)
    requires
        strictly_sorted(a),
        strictly_sorted(b),
        a.to_set() == b.to_set(),
    ensures
        a == b,
    decreases a.len(),
{
    if a.len() == 0 || b.len() == 0 {
        if b.len() > 0 {
            assert(b.to_set().contains(b[0]));
        }
        if a.len() > 0 {
            assert(a.to_set().contains(a[0]));
        }
        assert(a =~= b);
    } else {
        assert(a.to_set().contains(a[0]));
        assert(b.to_set().contains(b[0]));
        let j = choose|j: int| 0 <= j < b.len() && b[j] == a[0];
        let i = choose|i: int| 0 <= i < a.len() && a[i] == b[0];
        if a[0] != b[0] {
            assert(lex_lt(b[0], b[j]));
            assert(lex_lt(a[0], a[i]));
            crate::text::lemma_lex_transitive(a[0], b[0], a[0]);
            crate::text::lemma_lex_irreflexive(a[0]);
        }
        let a2 = a.drop_first();
        let b2 = b.drop_first();
        assert forall|x: Seq<u8>| a2.to_set().contains(x) implies b2.to_set().contains(x) by {
            let p = choose|p: int| 0 <= p < a2.len() && a2[p] == x;
            assert(lex_lt(a[0], a[p + 1]));
            crate::text::lemma_lex_irreflexive(x);
            assert(a.to_set().contains(x));
            let q = choose|q: int| 0 <= q < b.len() && b[q] == x;
            assert(q != 0);
            assert(b2[q - 1] == x);
        }
        assert forall|x: Seq<u8>| b2.to_set().contains(x) implies a2.to_set().contains(x) by {
            let p = choose|p: int| 0 <= p < b2.len() && b2[p] == x;
            assert(lex_lt(b[0], b[p + 1]));
            crate::text::lemma_lex_irreflexive(x);
            assert(b.to_set().contains(x));
            let q = choose|q: int| 0 <= q < a.len() && a[q] == x;
            assert(q != 0);
            assert(a2[q - 1] == x);
        }
        assert(a2.to_set() =~= b2.to_set());
        lemma_sorted_same_entries(a2, b2);
        assert(a =~= seq![a[0]] + a2);
        assert(b =~= seq![b[0]] + b2);
    }
}

/// Resolution is deterministic: any two directory lists that are ascending,
/// without repeats, and hold exactly the directories of the same assets are
/// identical, so resolving unchanged input twice gives the same list.
pub proof fn lemma_directories_determined(assets: Seq<Seq<u8>>, a: Seq<Seq<u8>>, b: Seq<Seq<u8>>)
    requires
        strictly_sorted(a),
        strictly_sorted(b),
        a.to_set() == directories(assets),
        b.to_set() == directories(assets),
    ensures
        a == b,
{
    lemma_sorted_same_entries(a, b);
}


/// A bundle's manifest: the asset paths it declares, in order.
pub struct Manifest {
    pub assets: Vec<String>,
}

/// What a bundle's descriptor declares.
pub struct MasterBundleData {
    pub name: String,
    pub asset_prefix: String,
}

/// A resolved bundle: its name and its assets relative to the prefix.
pub struct MasterBundle {
    pub name: String,
    pub assets: Vec<String>,
}

fn is_disallowed_segment(seg: &String) -> (r: bool)
    ensures
        r == is_disallowed(seg@),
{
    same_text(seg, "Objects") || same_text(seg, "Effects") || same_text(seg, "Terrain")
        || same_text(seg, "Assets") || same_text(seg, "Grass") || same_text(seg, "Trees")
        || same_text(seg, "PBSNPCS") || same_text(seg, "Logs")
}

/// Whether the segments `es` begin with the segments `ps`.
fn starts_with_segments(es: &Vec<String>, ps: &Vec<String>) -> (r: bool)
    ensures
        r == (ps@.len() <= es@.len() && texts(es@).subrange(0, ps@.len() as int) == texts(
            ps@,
        )),
{
    if ps.len() > es.len() {
        return false;
    }
    let ghost te = texts(es@);
    let ghost tp = texts(ps@);
    let mut j: usize = 0;
    while j < ps.len()
        invariant
            te == texts(es@),
            tp == texts(ps@),
            ps@.len() <= es@.len(),
            j <= ps@.len(),
            forall|k: int| 0 <= k < j ==> te[k] == tp[k],
        decreases ps@.len() - j,
    {
        if !(es[j] == ps[j]) {
            proof {
                assert(decode_utf8(te[j as int]) == es@[j as int]@);
                assert(decode_utf8(tp[j as int]) == ps@[j as int]@);
                assert(te.subrange(0, ps@.len() as int)[j as int] == te[j as int]);
            }
            return false;
        }
        j = j + 1;
    }
    assert(te.subrange(0, ps@.len() as int) =~= tp);
    true
}

/// Relies on itertools::Itertools::sorted: the same items in ascending order
/// of `String`'s `Ord`, which compares the UTF-8 bytes lexicographically.
#[verifier::external_body]
fn sorted_texts(v: Vec<String>) -> (r: Vec<String>)
    ensures
        texts(r@).to_multiset() == texts(v@).to_multiset(),
        forall|a: int, b: int|
            0 <= a < b < r@.len() ==> !lex_lt(#[trigger] texts(r@)[b], #[trigger] texts(r@)[a]),
{
    v.into_iter().sorted().collect()
}

fn is_directory_text(d: &String) -> (r: bool)
    ensures
        r == is_directory(encode_utf8(d@)),
{
    let b = d.as_str().as_bytes();
    proof {
        assert(b@ == encode_utf8(d@));
    }
    if b.len() == 0 {
        false
    } else if b.len() == 1 && b[0] == 0x2eu8 {
        assert(b@ =~= seq![0x2eu8]);
        false
    } else {
        assert(b@.len() != 1 ==> b@ != seq![0x2eu8]);
        true
    }
}

impl MasterBundle {
    /// Reads the descriptor text line by line: the first whitespace-separated
    /// word of a line names a field, the second gives its value; the last
    /// line of a field wins and other lines are ignored.
    pub fn parse_masterbundle_data(contents: &str) -> (r: MasterBundleData)
        ensures
            r.name@ == field_value(
                descriptor_lines(encode_utf8(contents@)),
                name_field(),
            ),
            r.asset_prefix@ == field_value(
                descriptor_lines(encode_utf8(contents@)),
                prefix_field(),
            ),
    {
        let lines = split_runs(contents, Delimiter::Newline);
        let ghost ls = texts(lines@);
        let mut data = MasterBundleData { name: String::new(), asset_prefix: String::new() };
        proof {
            reveal_strlit("Asset_Bundle_Name");
            reveal_strlit("Asset_Prefix");
            assert(name_field().len() != prefix_field().len());
            assert(ls.take(0) =~= Seq::<Seq<u8>>::empty());
        }
        let mut i: usize = 0;
        while i < lines.len()
            invariant
                ls == texts(lines@),
                ls == descriptor_lines(encode_utf8(contents@)),
                i <= lines@.len(),
                name_field() != prefix_field(),
                data.name@ == field_value(ls.take(i as int), name_field()),
                data.asset_prefix@ == field_value(ls.take(i as int), prefix_field()),
            decreases lines@.len() - i,
        {
            assert(ls.take(i + 1).drop_last() =~= ls.take(i as int));
            assert(ls.take(i + 1).last() == ls[i as int]);
            let toks = split_whitespace(lines[i].as_str());
            let ghost t = toks@.map_values(|w: String| w@);
            assert(decode_utf8(ls[i as int]) == lines@[i as int]@);
            if toks.len() > 0 {
                let value: String = if toks.len() > 1 {
                    toks[1].clone()
                } else {
                    String::new()
                };
                assert(t[0] == toks@[0]@);
                assert(t.len() > 1 ==> t[1] == toks@[1]@);
                if same_text(&toks[0], "Asset_Bundle_Name") {
                    data.name = value;
                } else if same_text(&toks[0], "Asset_Prefix") {
                    data.asset_prefix = value;
                }
            }
            i = i + 1;
        }
        assert(ls.take(lines@.len() as int) =~= ls);
        data
    }

    /// The manifest's assets that begin with the path components of
    /// `asset_prefix`, with those components taken off, leaving out those whose
    /// first remaining component is disallowed; in manifest order.
    pub fn parse_assets(manifest: &Manifest, asset_prefix: &str) -> (r: Vec<String>)
        ensures
            texts(r@) == filter_assets(texts(manifest.assets@), encode_utf8(asset_prefix@)),
    {
        let ps = components_of(asset_prefix);
        let ghost entries = texts(manifest.assets@);
        let ghost prefix = encode_utf8(asset_prefix@);
        let mut out: Vec<String> = Vec::new();
        proof {
            assert(entries.take(0) =~= Seq::<Seq<u8>>::empty());
        }
        let mut i: usize = 0;
        while i < manifest.assets.len()
            invariant
                entries == texts(manifest.assets@),
                prefix == encode_utf8(asset_prefix@),
                texts(ps@) == components(prefix),
                i <= manifest.assets@.len(),
                texts(out@) == filter_assets(entries.take(i as int), prefix),
            decreases manifest.assets@.len() - i,
        {
            assert(entries.take(i + 1).drop_last() =~= entries.take(i as int));
            assert(entries.take(i + 1).last() == entries[i as int]);
            let es = components_of(manifest.assets[i].as_str());
            let ghost te = texts(es@);
            if starts_with_segments(&es, &ps) {
                let k = ps.len();
                let ghost rest = te.subrange(k as int, te.len() as int);
                assert(rest.len() > 0 ==> rest[0] == te[k as int]);
                if k == es.len() || !is_disallowed_segment(&es[k]) {
                    let spelt = render_range(&es, k, es.len());
                    out.push(spelt);
                    assert(texts(out@) =~= filter_assets(entries.take(i as int), prefix).push(
                        render(rest),
                    ));
                } else {
                    assert(decode_utf8(te[k as int]) == es@[k as int]@);
                }
            }
            i = i + 1;
        }
        assert(entries.take(manifest.assets@.len() as int) =~= entries);
        out
    }

    /// The bundle named by `data`, with the assets of `manifest` that survive
    /// its prefix and the denylist.
    pub fn new(data: MasterBundleData, manifest: &Manifest) -> (r: MasterBundle)
        ensures
            r.name@ == data.name@,
            texts(r.assets@) == filter_assets(
                texts(manifest.assets@),
                encode_utf8(data.asset_prefix@),
            ),
    {
        let assets = Self::parse_assets(manifest, data.asset_prefix.as_str());
        MasterBundle { name: data.name, assets }
    }

    /// The name of the manifest file of the bundle called `name`.
    pub fn manifest_file_name(name: &str) -> (r: String)
        ensures
            r@ == name@ + MANIFEST_EXTENSION@,
    {
        name.to_owned().concat(MANIFEST_EXTENSION)
    }

    /// The directories that hold the assets: every parent that is neither
    /// empty nor `.`, once each, ascending by bytes.
    pub fn get_paths(&self) -> (r: Vec<String>)
        ensures
            strictly_sorted(texts(r@)),
            texts(r@).no_duplicates(),
            forall|k: int| 0 <= k < r@.len() ==> is_directory(#[trigger] texts(r@)[k]),
            texts(r@).to_set() == directories(texts(self.assets@)),
    {
        let ghost assets = texts(self.assets@);
        let mut parents: Vec<String> = Vec::new();
        let mut i: usize = 0;
        while i < self.assets.len()
            invariant
                assets == texts(self.assets@),
                i <= self.assets@.len(),
                forall|k: int|
                    0 <= k < parents@.len() ==> #[trigger] directories(assets).contains(
                        texts(parents@)[k],
                    ),
                forall|j: int|
                    0 <= j < i && is_directory(parent(assets[j])) ==> texts(parents@).contains(
                        #[trigger] parent(assets[j]),
                    ),
            decreases self.assets@.len() - i,
        {
            let p = parent_text(self.assets[i].as_str());
            if is_directory_text(&p) {
                let ghost before = texts(parents@);
                parents.push(p);
                proof {
                    let after = texts(parents@);
                    assert(after =~= before.push(encode_utf8(p@)));
                    assert(after[before.len() as int] == parent(assets[i as int]));
                    assert forall|k: int| 0 <= k < after.len() implies #[trigger] directories(
                        assets,
                    ).contains(after[k]) by {
                        if k == before.len() {
                            assert(parent(assets[i as int]) == after[k]);
                        } else {
                            assert(after[k] == before[k]);
                        }
                    }
                    assert forall|j: int|
                        0 <= j <= i && is_directory(parent(assets[j])) implies after.contains(
                        #[trigger] parent(assets[j]),
                    ) by {
                        if j < i {
                            let w = choose|w: int|
                                0 <= w < before.len() && before[w] == parent(assets[j]);
                            assert(after[w] == before[w]);
                        } else {
                            assert(after[before.len() as int] == parent(assets[j]));
                        }
                    }
                }
            }
            i = i + 1;
        }
        let ghost found = texts(parents@);
        let sorted = sorted_texts(parents);
        let ghost src = texts(sorted@);
        proof {
            assert forall|k: int| 0 <= k < src.len() implies directories(assets).contains(
                #[trigger] src[k],
            ) by {
                assert(src.contains(src[k]));
                assert(src.to_multiset().count(src[k]) > 0);
                assert(found.contains(src[k]));
            }
        }
        let mut out: Vec<String> = Vec::new();
        assert(src.take(0) =~= Seq::<Seq<u8>>::empty());
        let mut i: usize = 0;
        while i < sorted.len()
            invariant
                src == texts(sorted@),
                texts(out@) == collapse_adjacent(src.take(i as int)),
                i <= src.len(),
                forall|k: int| 0 <= k < src.len() ==> directories(assets).contains(#[trigger] src[k]),
                forall|a: int, b: int|
                    0 <= a < b < src.len() ==> !lex_lt(#[trigger] src[b], #[trigger] src[a]),
                strictly_sorted(texts(out@)),
                out@.len() == 0 <==> i == 0,
                out@.len() > 0 ==> texts(out@).last() == src[i - 1],
                forall|k: int|
                    0 <= k < out@.len() ==> directories(assets).contains(#[trigger] texts(out@)[k]),
                forall|j: int| 0 <= j < i ==> texts(out@).contains(#[trigger] src[j]),
            decreases src.len() - i,
        {
            let ghost before = texts(out@);
            assert(src.take(i + 1).drop_last() =~= src.take(i as int));
            assert(src.take(i + 1).last() == src[i as int]);
            if out.len() == 0 || !(sorted[i] == out[out.len() - 1]) {
                proof {
                    if before.len() > 0 {
                        assert(decode_utf8(src[i as int]) == sorted@[i as int]@);
                        assert(decode_utf8(before.last()) == out@.last()@);
                        assert(src[i as int] != src[i - 1]);
                        assert(!lex_lt(src[i as int], src[i - 1]));
                        crate::text::lemma_lex_total(src[i - 1], src[i as int]);
                        assert forall|a: int| 0 <= a < before.len() - 1 implies lex_lt(
                            before[a],
                            src[i as int],
                        ) by {
                            crate::text::lemma_lex_transitive(
                                before[a],
                                before.last(),
                                src[i as int],
                            );
                        }
                    }
                }
                let c = sorted[i].clone();
                out.push(c);
                proof {
                    let after = texts(out@);
                    assert(after =~= before.push(src[i as int]));
                    assert forall|j: int| 0 <= j <= i implies after.contains(
                        #[trigger] src[j],
                    ) by {
                        if j < i {
                            let w = choose|w: int| 0 <= w < before.len() && before[w] == src[j];
                            assert(after[w] == before[w]);
                        } else {
                            assert(after[before.len() as int] == src[j]);
                        }
                    }
                }
            } else {
                proof {
                    assert(decode_utf8(src[i as int]) == sorted@[i as int]@);
                    assert(decode_utf8(before.last()) == out@.last()@);
                    assert(src[i as int] == before.last());
                    assert(before.contains(src[i as int]));
                }
            }
            i = i + 1;
        }
        proof {
            let res = texts(out@);
            assert forall|d: Seq<u8>| directories(assets).contains(d) implies #[trigger] res.contains(
                d,
            ) by {
                let j = choose|j: int| 0 <= j < assets.len() && parent(assets[j]) == d;
                assert(found.contains(d));
                assert(found.to_multiset().count(d) > 0);
                assert(src.contains(d));
            }
            assert(res.to_set() =~= directories(assets));
            assert forall|a: int, b: int| 0 <= a < res.len() && 0 <= b < res.len() && a != b implies res[a]
                != res[b] by {
                if a < b {
                    crate::text::lemma_lex_irreflexive(res[a]);
                } else {
                    crate::text::lemma_lex_irreflexive(res[b]);
                }
            }
        }
        out
    }
}

} // verus!
