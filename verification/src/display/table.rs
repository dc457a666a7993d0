//! Table rendering in two phases: first a plain-text grid with auto-sized
//! columns, then a decoration pass that swaps each plain cell value for
//! its colorized form by exact, delimiter-bounded substring replacement,
//! so the grid's visible layout never changes.

use vstd::prelude::*;

use crate::ansi::{
    esc_free, lemma_esc_free_veiled_self, lemma_replace_all_veiled, lemma_styled_veiled,
    lemma_veiled_concat, veiled,
};
use crate::colors::{file_url, link_text, name_decor_ok, size_decor_ok};
use crate::config::Config;
use crate::display::{entry_visible, join_path, name_visible, path_join, visible_entries, RawEntry};
use crate::file_info::{EntryMeta, FileInfo};
use vstd::utf8::encode_utf8;
use crate::text::{
    chars_to_string, contains_seq, has_prefix, lemma_replace_all_no_match, replace_all_chars,
    spec_replace_all, str_to_chars,
};

verus! {

/// The grid text tabled renders for given cell texts: a pure function of
/// the cells, named rather than spelled out.
pub uninterp spec fn grid_of(rows: Seq<Seq<Seq<char>>>) -> Seq<char>;

/// Relies on tabled's Builder, Table and Style::modern: the records laid
/// out as a bordered grid whose text depends on the cell texts alone. The
/// layout adds border glyphs, spaces and newlines and never an escape, so
/// a grid over escape-free cells is escape-free.
#[verifier::external_body]
fn render_grid(rows: &Vec<Vec<String>>) -> (r: String)
    ensures
        r@ == grid_of(rows.deep_view()),
        (forall|i: int, j: int|
            0 <= i < rows.deep_view().len() && 0 <= j < rows.deep_view()[i].len() ==> esc_free(
                #[trigger] rows.deep_view()[i][j],
            )) ==> esc_free(r@),
{
    let mut table = tabled::builder::Builder::from(rows.clone()).build();
    table.with(tabled::settings::Style::modern());
    table.to_string()
}

/// The search key for a name cell: the value between the left border
/// glyph and the padding space that bound it in the grid.
pub open spec fn name_pattern(v: Seq<char>) -> Seq<char> {
    seq!['│', ' '] + v + seq![' ']
}

/// The search key for a size cell: the value between its two padding
/// spaces.
pub open spec fn size_pattern(v: Seq<char>) -> Seq<char> {
    seq![' '] + v + seq![' ']
}

/// The name substitutions applied in order: each pair's plain cell key
/// replaced by its decorated form, over the whole text.
pub open spec fn apply_name_pairs(text: Seq<char>, pairs: Seq<(Seq<char>, Seq<char>)>) -> Seq<char>
    decreases pairs.len(),
{
    if pairs.len() == 0 {
        text
    } else {
        apply_name_pairs(
            spec_replace_all(text, name_pattern(pairs[0].0), name_pattern(pairs[0].1)),
            pairs.skip(1),
        )
    }
}

/// The size substitutions applied in order.
pub open spec fn apply_size_pairs(text: Seq<char>, pairs: Seq<(Seq<char>, Seq<char>)>) -> Seq<char>
    decreases pairs.len(),
{
    if pairs.len() == 0 {
        text
    } else {
        apply_size_pairs(
            spec_replace_all(text, size_pattern(pairs[0].0), size_pattern(pairs[0].1)),
            pairs.skip(1),
        )
    }
}

/// A substitution pair whose decorated side shows exactly the plain side.
pub open spec fn pair_veiled(pr: (Seq<char>, Seq<char>)) -> bool {
    esc_free(pr.0) && veiled(pr.1, pr.0)
}

/// A bounded cell key around a veiled value is veiled over the plain key.
proof fn lemma_pattern_veiled(p: Seq<char>, d: Seq<char>, left: Seq<char>)
    requires
        esc_free(p),
        veiled(d, p),
        esc_free(left),
    ensures
        veiled(left + d + seq![' '], left + p + seq![' ']),
        esc_free(left + p + seq![' ']),
{
    lemma_esc_free_veiled_self(left);
    lemma_esc_free_veiled_self(seq![' ']);
    lemma_veiled_concat(d, p, seq![' '], seq![' ']);
    lemma_veiled_concat(left, left, d + seq![' '], p + seq![' ']);
    assert(left + (d + seq![' ']) =~= left + d + seq![' ']);
    assert(left + (p + seq![' ']) =~= left + p + seq![' ']);
    assert forall|i: int| 0 <= i < (left + p + seq![' ']).len() implies (left + p + seq![' '])[i]
        != crate::ansi::esc() by {
        if i < left.len() {
            assert((left + p + seq![' '])[i] == left[i]);
        } else if i < left.len() + p.len() {
            assert((left + p + seq![' '])[i] == p[i - left.len()]);
        }
    }
}

/// Applying name substitutions whose pairs are all veiled keeps the text
/// veiled over the same plain text.
pub proof fn lemma_apply_name_pairs_veiled(
    text: Seq<char>,
    o: Seq<char>,
    pairs: Seq<(Seq<char>, Seq<char>)>,
)
    requires
        veiled(text, o),
        forall|k: int| 0 <= k < pairs.len() ==> pair_veiled(#[trigger] pairs[k]),
    ensures
        veiled(apply_name_pairs(text, pairs), o),
    decreases pairs.len(),
{
    if pairs.len() > 0 {
        assert(pair_veiled(pairs[0]));
        lemma_pattern_veiled(pairs[0].0, pairs[0].1, seq!['│', ' ']);
        assert(seq!['│', ' '] + pairs[0].0 + seq![' '] =~= name_pattern(pairs[0].0));
        assert(seq!['│', ' '] + pairs[0].1 + seq![' '] =~= name_pattern(pairs[0].1));
        assert(name_pattern(pairs[0].0)[0] == '│');
        lemma_replace_all_veiled(text, o, name_pattern(pairs[0].0), name_pattern(pairs[0].1));
        lemma_apply_name_pairs_veiled(
            spec_replace_all(text, name_pattern(pairs[0].0), name_pattern(pairs[0].1)),
            o,
            pairs.skip(1),
        );
    }
}

/// Applying size substitutions whose pairs are all veiled keeps the text
/// veiled over the same plain text.
pub proof fn lemma_apply_size_pairs_veiled(
    text: Seq<char>,
    o: Seq<char>,
    pairs: Seq<(Seq<char>, Seq<char>)>,
)
    requires
        veiled(text, o),
        forall|k: int| 0 <= k < pairs.len() ==> pair_veiled(#[trigger] pairs[k]),
    ensures
        veiled(apply_size_pairs(text, pairs), o),
    decreases pairs.len(),
{
    if pairs.len() > 0 {
        assert(pair_veiled(pairs[0]));
        lemma_pattern_veiled(pairs[0].0, pairs[0].1, seq![' ']);
        assert(seq![' '] + pairs[0].0 + seq![' '] =~= size_pattern(pairs[0].0));
        assert(seq![' '] + pairs[0].1 + seq![' '] =~= size_pattern(pairs[0].1));
        assert(size_pattern(pairs[0].0)[0] == ' ');
        lemma_replace_all_veiled(text, o, size_pattern(pairs[0].0), size_pattern(pairs[0].1));
        lemma_apply_size_pairs_veiled(
            spec_replace_all(text, size_pattern(pairs[0].0), size_pattern(pairs[0].1)),
            o,
            pairs.skip(1),
        );
    }
}

fn name_pattern_chars(v: &str) -> (r: Vec<char>)
    ensures
        r@ == name_pattern(v@),
{
    let mut s = String::from_str("│ ");
    s.append(v);
    s.append(" ");
    let r = str_to_chars(s.as_str());
    proof {
        reveal_strlit("│ ");
        reveal_strlit(" ");
        assert(r@ =~= name_pattern(v@));
    }
    r
}

fn size_pattern_chars(v: &str) -> (r: Vec<char>)
    ensures
        r@ == size_pattern(v@),
{
    let mut s = String::from_str(" ");
    s.append(v);
    s.append(" ");
    let r = str_to_chars(s.as_str());
    proof {
        reveal_strlit(" ");
        assert(r@ =~= size_pattern(v@));
    }
    r
}

/// Replaces each plain name cell key by its decorated form, one pair
/// after the other over the whole grid text.
pub fn apply_file_name_colors(result: String, file_entries: Vec<(String, String)>) -> (r: String)
    ensures
        r@ == apply_name_pairs(result@, file_entries.deep_view()),
{
    let ghost dv = file_entries.deep_view();
    let mut cur = str_to_chars(result.as_str());
    let mut k: usize = 0;
    proof {
        assert(dv.skip(0) =~= dv);
    }
    while k < file_entries.len()
        invariant
            0 <= k <= file_entries@.len(),
            dv == file_entries.deep_view(),
            dv.len() == file_entries@.len(),
            apply_name_pairs(result@, dv) == apply_name_pairs(cur@, dv.skip(k as int)),
        decreases file_entries@.len() - k,
    {
        let pat = name_pattern_chars(file_entries[k].0.as_str());
        let rep = name_pattern_chars(file_entries[k].1.as_str());
        proof {
            assert(dv[k as int] == (file_entries@[k as int].0@, file_entries@[k as int].1@));
            assert(dv.skip(k as int)[0] == dv[k as int]);
            assert(dv.skip(k as int).skip(1) =~= dv.skip(k + 1));
            assert(pat@.len() > 0);
        }
        cur = replace_all_chars(&cur, &pat, &rep);
        k += 1;
    }
    proof {
        assert(dv.skip(dv.len() as int) =~= Seq::<(Seq<char>, Seq<char>)>::empty());
    }
    chars_to_string(&cur)
}

/// Replaces each plain size cell key by its decorated form, one pair
/// after the other over the whole grid text.
pub fn apply_size_colors(result: String, size_entries: Vec<(String, String)>) -> (r: String)
    ensures
        r@ == apply_size_pairs(result@, size_entries.deep_view()),
{
    let ghost dv = size_entries.deep_view();
    let mut cur = str_to_chars(result.as_str());
    let mut k: usize = 0;
    proof {
        assert(dv.skip(0) =~= dv);
    }
    while k < size_entries.len()
        invariant
            0 <= k <= size_entries@.len(),
            dv == size_entries.deep_view(),
            dv.len() == size_entries@.len(),
            apply_size_pairs(result@, dv) == apply_size_pairs(cur@, dv.skip(k as int)),
        decreases size_entries@.len() - k,
    {
        let pat = size_pattern_chars(size_entries[k].0.as_str());
        let rep = size_pattern_chars(size_entries[k].1.as_str());
        proof {
            assert(dv[k as int] == (size_entries@[k as int].0@, size_entries@[k as int].1@));
            assert(dv.skip(k as int)[0] == dv[k as int]);
            assert(dv.skip(k as int).skip(1) =~= dv.skip(k + 1));
            assert(pat@.len() > 0);
        }
        cur = replace_all_chars(&cur, &pat, &rep);
        k += 1;
    }
    proof {
        assert(dv.skip(dv.len() as int) =~= Seq::<(Seq<char>, Seq<char>)>::empty());
    }
    chars_to_string(&cur)
}

/// The fixed column headers, in table order.
pub open spec fn header_cells() -> Seq<Seq<char>> {
    seq![
        "Name"@,
        "Type"@,
        "User Permission"@,
        "Group Permission"@,
        "Other Permission"@,
        "Octal"@,
        "User/Group (Owner)"@,
        "Size"@,
        "Modified"@,
    ]
}

fn build_header() -> (r: Vec<String>)
    ensures
        r.deep_view() == header_cells(),
{
    let mut r: Vec<String> = Vec::new();
    r.push(String::from_str("Name"));
    r.push(String::from_str("Type"));
    r.push(String::from_str("User Permission"));
    r.push(String::from_str("Group Permission"));
    r.push(String::from_str("Other Permission"));
    r.push(String::from_str("Octal"));
    r.push(String::from_str("User/Group (Owner)"));
    r.push(String::from_str("Size"));
    r.push(String::from_str("Modified"));
    proof {
        assert(r.deep_view() =~= header_cells());
    }
    r
}

/// What one data row shows for one entry: the name always; with readable
/// metadata the kind, the three triads, the octal mode, a resolved owner,
/// the scaled size and the short timestamp; without it the degraded
/// default classification, so a failed metadata read never drops the
/// entry.
pub open spec fn row_ok(row: Seq<Seq<char>>, e: RawEntry) -> bool {
    &&& row.len() == 9
    &&& row[0] == e.name@
    &&& (e.meta matches Some(m) ==> {
        &&& row[1] == crate::file_info::file_type_text(m)
        &&& row[2] == crate::file_info::permission_group_text(crate::file_info::user_bits(m.mode))
        &&& row[3] == crate::file_info::permission_group_text(crate::file_info::group_bits(m.mode))
        &&& row[4] == crate::file_info::permission_group_text(crate::file_info::other_bits(m.mode))
        &&& row[5] == crate::formatting::octal_mode_text(m.mode as nat)
        &&& exists|u: Option<Seq<char>>, g: Option<Seq<char>>|
            row[6] == crate::file_info::owner_text(u, g, m.uid, m.gid)
        &&& row[7] == crate::formatting::size_text(m.size as nat)
        &&& (m.modified is None ==> row[8] == "Unknown"@)
        &&& (row[8] == "Unknown"@ || row[8].len() == 12)
        &&& (m.modified matches Some(t) && crate::formatting::timestamp_renderable(t) ==> row[8].len()
            == 12)
    })
    &&& (e.meta is None ==> {
        &&& row[1] == "File"@
        &&& row[2] == "None"@
        &&& row[3] == "None"@
        &&& row[4] == "None"@
        &&& row[5] == "000"@
        &&& row[6] == "unknown/unknown"@
        &&& row[7] == "0B"@
        &&& row[8] == "Unknown"@
    })
}

fn build_row(e: &RawEntry) -> (r: Vec<String>)
    ensures
        row_ok(r.deep_view(), *e),
{
    let mut r: Vec<String> = Vec::new();
    match &e.meta {
        Some(meta) => {
            let info = FileInfo::from_metadata(e.name.clone(), meta);
            r.push(info.name);
            r.push(info.file_type);
            r.push(info.user_perms);
            r.push(info.group_perms);
            r.push(info.other_perms);
            r.push(info.octal);
            r.push(info.owner);
            r.push(info.size);
            r.push(info.modified);
        },
        None => {
            let info = FileInfo::default();
            r.push(e.name.clone());
            r.push(info.file_type);
            r.push(info.user_perms);
            r.push(info.group_perms);
            r.push(info.other_perms);
            r.push(info.octal);
            r.push(info.owner);
            r.push(info.size);
            r.push(info.modified);
        },
    }
    proof {
        assert(r.deep_view().len() == 9);
    }
    r
}

/// The metadata a decoration is computed from: the entry's own, or the
/// degraded default when the read failed.
pub open spec fn meta_or_default(e: RawEntry) -> EntryMeta {
    match e.meta {
        Some(m) => m,
        None => EntryMeta {
            mode: 0,
            size: 0,
            is_dir: false,
            is_symlink: false,
            uid: 0,
            gid: 0,
            modified: None,
        },
    }
}

/// The byte count a size decoration is computed from; a failed metadata
/// read counts as zero bytes.
pub open spec fn size_of_entry(e: RawEntry) -> u64 {
    match e.meta {
        Some(m) => m.size,
        None => 0,
    }
}

/// The decorated display form of one entry's name: its fixed-table
/// coloring, hyperlink-wrapped to the entry's absolute path in
/// interactive mode.
#[verifier::opaque]
pub open spec fn name_decorated(
    d: Seq<char>,
    e: RawEntry,
    interactive: bool,
    abs_root: Seq<char>,
) -> bool {
    if interactive {
        exists|body: Seq<char>|
            d == #[trigger] link_text(file_url(encode_utf8(path_join(abs_root, e.name@))), body)
                && name_decor_ok(body, e.name@, meta_or_default(e))
    } else {
        name_decor_ok(d, e.name@, meta_or_default(e))
    }
}

/// A name substitution pair as built from the entries: the plain side is
/// some surviving entry's name, the decorated side is that entry's
/// display form, and the pair shows exactly the name whenever it is
/// escape-free.
#[verifier::opaque]
pub open spec fn name_pair_from(
    pr: (Seq<char>, Seq<char>),
    entries: Seq<RawEntry>,
    show_hidden: bool,
    interactive: bool,
    abs_root: Seq<char>,
) -> bool {
    &&& (esc_free(pr.0) ==> veiled(pr.1, pr.0))
    &&& exists|j: int|
        0 <= j < entries.len() && entry_visible(#[trigger] entries[j], show_hidden) && pr.0
            == entries[j].name@ && name_decorated(pr.1, entries[j], interactive, abs_root)
}

/// A size substitution pair as built from the entries: the plain side is
/// some surviving entry's formatted size, the decorated side its banded
/// coloring, always showing exactly the plain text.
#[verifier::opaque]
pub open spec fn size_pair_from(
    pr: (Seq<char>, Seq<char>),
    entries: Seq<RawEntry>,
    show_hidden: bool,
) -> bool {
    &&& esc_free(pr.0)
    &&& veiled(pr.1, pr.0)
    &&& exists|j: int|
        0 <= j < entries.len() && entry_visible(#[trigger] entries[j], show_hidden) && pr.0
            == crate::formatting::size_text(size_of_entry(entries[j]) as nat) && size_decor_ok(
            pr.1,
            pr.0,
            size_of_entry(entries[j]),
        )
}

/// One substitution stands for every surviving entry's name, and one for
/// its formatted size.
pub open spec fn pairs_complete(
    nps: Seq<(Seq<char>, Seq<char>)>,
    sps: Seq<(Seq<char>, Seq<char>)>,
    entries: Seq<RawEntry>,
    show_hidden: bool,
) -> bool {
    forall|j: int|
        0 <= j < entries.len() && entry_visible(#[trigger] entries[j], show_hidden) ==> (exists|
            k: int,
        |
            0 <= k < nps.len() && (#[trigger] nps[k]).0 == entries[j].name@) && (exists|k: int|
            0 <= k < sps.len() && (#[trigger] sps[k]).0 == crate::formatting::size_text(
                size_of_entry(entries[j]) as nat,
            ))
}

/// Substitutions are applied longest plain value first.
pub open spec fn pairs_longest_first(ps: Seq<(Seq<char>, Seq<char>)>) -> bool {
    forall|k1: int, k2: int|
        0 <= k1 < k2 < ps.len() ==> (#[trigger] ps[k1]).0.len() >= (#[trigger] ps[k2]).0.len()
}

fn sort_pairs_desc(v: Vec<(String, String)>) -> (r: Vec<(String, String)>)
    ensures
        r@.len() == v@.len(),
        forall|k: int| 0 <= k < r@.len() ==> v@.contains(#[trigger] r@[k]),
        forall|k: int| 0 <= k < v@.len() ==> r@.contains(#[trigger] v@[k]),
        forall|k1: int, k2: int|
            0 <= k1 < k2 < r@.len() ==> (#[trigger] r@[k1]).0@.len() >= (#[trigger] r@[k2]).0@.len(),
{
    let ghost orig = v@;
    let mut v = v;
    let mut out: Vec<(String, String)> = Vec::new();
    proof {
        assert forall|k: int| 0 <= k < v@.len() implies orig.contains(#[trigger] v@[k]) by {
            assert(orig[k] == v@[k]);
        }
    }
    while v.len() > 0
        invariant
            out@.len() + v@.len() == orig.len(),
            forall|k: int| 0 <= k < v@.len() ==> orig.contains(#[trigger] v@[k]),
            forall|k: int| 0 <= k < out@.len() ==> orig.contains(#[trigger] out@[k]),
            forall|k: int|
                0 <= k < orig.len() ==> out@.contains(#[trigger] orig[k]) || v@.contains(orig[k]),
            forall|k1: int, k2: int|
                0 <= k1 < k2 < out@.len() ==> (#[trigger] out@[k1]).0@.len() >= (
                #[trigger] out@[k2]).0@.len(),
        decreases v@.len(),
    {
        let ghost vpre = v@;
        let e = v.remove(0);
        proof {
            assert(e == vpre[0]);
            assert(orig.contains(e));
            assert forall|k: int| 0 <= k < v@.len() implies orig.contains(#[trigger] v@[k]) by {
                assert(v@[k] == vpre[k + 1]);
            }
            assert forall|k: int|
                0 <= k < vpre.len() && vpre[k] != e implies v@.contains(#[trigger] vpre[k]) by {
                if k > 0 {
                    assert(v@[k - 1] == vpre[k]);
                }
            }
        }
        let ghost opre0 = out@;
        let mut j: usize = 0;
        while j < out.len() && out[j].0.as_str().unicode_len() >= e.0.as_str().unicode_len()
            invariant
                0 <= j <= out@.len(),
                out@ == opre0,
                forall|k: int| 0 <= k < j ==> (#[trigger] out@[k]).0@.len() >= e.0@.len(),
            decreases out@.len() - j,
        {
            j += 1;
        }
        let ghost opre = out@;
        out.insert(j, e);
        proof {
            assert forall|k: int| 0 <= k < out@.len() implies orig.contains(#[trigger] out@[k]) by {
                if k < j {
                    assert(out@[k] == opre[k]);
                } else if k == j {
                    assert(out@[k] == e);
                } else {
                    assert(out@[k] == opre[k - 1]);
                }
            }
            assert forall|k: int|
                0 <= k < orig.len() implies out@.contains(#[trigger] orig[k]) || v@.contains(
                orig[k],
            ) by {
                if orig[k] == e {
                    assert(out@[j as int] == e);
                } else if opre.contains(orig[k]) {
                    let m = choose|m: int| 0 <= m < opre.len() && opre[m] == orig[k];
                    if m < j {
                        assert(out@[m] == orig[k]);
                    } else {
                        assert(out@[m + 1] == orig[k]);
                    }
                } else if vpre.contains(orig[k]) {
                    assert(v@.contains(orig[k]));
                }
            }
            assert forall|k1: int, k2: int|
                0 <= k1 < k2 < out@.len() implies (#[trigger] out@[k1]).0@.len() >= (
            #[trigger] out@[k2]).0@.len() by {
                if k2 < j {
                    assert(out@[k1] == opre[k1] && out@[k2] == opre[k2]);
                } else if k2 == j {
                    assert(out@[k1] == opre[k1]);
                } else if k1 == j {
                    assert(out@[k2] == opre[k2 - 1]);
                    if j < opre.len() {
                        assert(opre[j as int].0@.len() < e.0@.len());
                        if k2 - 1 > j {
                            assert(opre[j as int].0@.len() >= opre[k2 - 1].0@.len());
                        }
                    }
                } else if k1 < j {
                    assert(out@[k1] == opre[k1] && out@[k2] == opre[k2 - 1]);
                    if k2 - 1 == j {
                        assert(opre[k1].0@.len() >= e.0@.len());
                        assert(out@[k2] == opre[j as int]);
                        assert(e.0@.len() > opre[j as int].0@.len());
                    }
                } else {
                    assert(out@[k1] == opre[k1 - 1] && out@[k2] == opre[k2 - 1]);
                }
            }
        }
    }
    proof {
        assert forall|k: int| 0 <= k < orig.len() implies out@.contains(#[trigger] orig[k]) by {
            assert(!v@.contains(orig[k]));
        }
    }
    out
}

/// Whether every surviving entry has an escape-free name, the premise
/// under which decoration provably keeps the grid intact.
pub open spec fn names_esc_free(entries: Seq<RawEntry>, show_hidden: bool) -> bool {
    forall|j: int|
        0 <= j < entries.len() && entry_visible(#[trigger] entries[j], show_hidden) ==> esc_free(
            entries[j].name@,
        )
}

/// What the decoration pass yields over a given plain text: the two
/// substitution folds, with one name pair and one size pair per surviving
/// entry, each pair built from its entry, applied longest plain value
/// first.
#[verifier::opaque]
pub open spec fn decorated_table_ok(
    r: Seq<char>,
    table: Seq<char>,
    entries: Seq<RawEntry>,
    config: Config,
    abs_root: Seq<char>,
) -> bool {
    exists|nps: Seq<(Seq<char>, Seq<char>)>, sps: Seq<(Seq<char>, Seq<char>)>|
        {
            &&& r == #[trigger] apply_size_pairs(apply_name_pairs(table, nps), sps)
            &&& nps.len() == visible_entries(entries, config.show_hidden).len()
            &&& sps.len() == nps.len()
            &&& (forall|k: int|
                0 <= k < nps.len() ==> name_pair_from(
                    #[trigger] nps[k],
                    entries,
                    config.show_hidden,
                    config.interactive,
                    abs_root,
                ))
            &&& (forall|k: int|
                0 <= k < sps.len() ==> size_pair_from(#[trigger] sps[k], entries, config.show_hidden))
            &&& pairs_complete(nps, sps, entries, config.show_hidden)
            &&& pairs_longest_first(nps)
            &&& pairs_longest_first(sps)
        }
}

proof fn lemma_intro_decorated(
    r: Seq<char>,
    table: Seq<char>,
    entries: Seq<RawEntry>,
    config: Config,
    abs_root: Seq<char>,
    nps: Seq<(Seq<char>, Seq<char>)>,
    sps: Seq<(Seq<char>, Seq<char>)>,
)
    requires
        r == apply_size_pairs(apply_name_pairs(table, nps), sps),
        nps.len() == visible_entries(entries, config.show_hidden).len(),
        sps.len() == nps.len(),
        forall|k: int|
            0 <= k < nps.len() ==> name_pair_from(
                #[trigger] nps[k],
                entries,
                config.show_hidden,
                config.interactive,
                abs_root,
            ),
        forall|k: int|
            0 <= k < sps.len() ==> size_pair_from(#[trigger] sps[k], entries, config.show_hidden),
        pairs_complete(nps, sps, entries, config.show_hidden),
        pairs_longest_first(nps),
        pairs_longest_first(sps),
    ensures
        decorated_table_ok(r, table, entries, config, abs_root),
{
    reveal(decorated_table_ok);
}

/// Decorates a finished grid: computes each surviving entry's colorized
/// name (hyperlinked in interactive mode) and colorized size, and swaps
/// them in as bounded substring replacements, longest plain value first,
/// one name pair and one size pair per surviving entry. Whenever the
/// grid and the names are escape-free, the decorated text is the grid
/// with zero-width pieces inserted and nothing else changed.
pub fn apply_colors_to_table(
    table: &str,
    entries: &Vec<RawEntry>,
    config: &Config,
    abs_root: &str,
) -> (r: String)
    ensures
        decorated_table_ok(r@, table@, entries@, *config, abs_root@),
        esc_free(table@) && names_esc_free(entries@, config.show_hidden) ==> veiled(r@, table@),
{
    let default_meta = EntryMeta {
        mode: 0,
        size: 0,
        is_dir: false,
        is_symlink: false,
        uid: 0,
        gid: 0,
        modified: None,
    };
    let mut file_entries: Vec<(String, String)> = Vec::new();
    let mut size_entries: Vec<(String, String)> = Vec::new();
    let mut i: usize = 0;
    proof {
        assert(visible_entries(entries@.subrange(0, 0), config.show_hidden) =~= Seq::<
            RawEntry,
        >::empty());
    }
    while i < entries.len()
        invariant
            0 <= i <= entries@.len(),
            default_meta.mode == 0 && default_meta.size == 0 && !default_meta.is_dir
                && !default_meta.is_symlink && default_meta.uid == 0 && default_meta.gid == 0
                && default_meta.modified is None,
            file_entries@.len() == visible_entries(
                entries@.subrange(0, i as int),
                config.show_hidden,
            ).len(),
            size_entries@.len() == file_entries@.len(),
            forall|k: int|
                0 <= k < file_entries@.len() ==> (#[trigger] file_entries@[k]).0@
                    == visible_entries(entries@.subrange(0, i as int), config.show_hidden)[k].name@,
            forall|k: int|
                0 <= k < size_entries@.len() ==> (#[trigger] size_entries@[k]).0@
                    == crate::formatting::size_text(
                    size_of_entry(
                        visible_entries(entries@.subrange(0, i as int), config.show_hidden)[k],
                    ) as nat,
                ),
            forall|k: int|
                0 <= k < file_entries@.len() ==> name_pair_from(
                    ((#[trigger] file_entries@[k]).0@, file_entries@[k].1@),
                    entries@,
                    config.show_hidden,
                    config.interactive,
                    abs_root@,
                ),
            forall|k: int|
                0 <= k < size_entries@.len() ==> size_pair_from(
                    ((#[trigger] size_entries@[k]).0@, size_entries@[k].1@),
                    entries@,
                    config.show_hidden,
                ),
        decreases entries@.len() - i,
    {
        let ghost pre = visible_entries(entries@.subrange(0, i as int), config.show_hidden);
        proof {
            assert(entries@.subrange(0, i + 1).drop_last() =~= entries@.subrange(0, i as int));
            assert(entries@.subrange(0, i + 1).last() == entries@[i as int]);
        }
        let e = &entries[i];
        if name_visible(&e.name, config.show_hidden) {
            let meta = match &e.meta {
                Some(m) => *m,
                None => default_meta,
            };
            let full = join_path(abs_root, e.name.as_str());
            let colored = crate::colors::format_file_name(
                e.name.as_str(),
                &meta,
                config.interactive,
                full.as_str(),
            );
            let pr = (e.name.clone(), colored);
            proof {
                reveal(name_decorated);
                reveal(name_pair_from);
                assert(meta == meta_or_default(entries@[i as int]));
                assert(entry_visible(entries@[i as int], config.show_hidden) && pr.0@
                    == entries@[i as int].name@ && name_decorated(
                    pr.1@,
                    entries@[i as int],
                    config.interactive,
                    abs_root@,
                ));
                if esc_free(pr.0@) {
                    assert(veiled(pr.1@, pr.0@));
                }
                assert(name_pair_from(
                    (pr.0@, pr.1@),
                    entries@,
                    config.show_hidden,
                    config.interactive,
                    abs_root@,
                ));
            }
            file_entries.push(pr);
            let size_str = crate::formatting::format_size(meta.size);
            let colored_size = crate::colors::get_colored_size(size_str.as_str(), meta.size);
            let spr = (size_str, colored_size);
            proof {
                reveal(size_pair_from);
                assert(meta.size == size_of_entry(entries@[i as int]));
                crate::formatting::lemma_size_text_esc_free(meta.size as nat);
                lemma_styled_veiled(spr.1@, spr.0@);
                assert(size_pair_from((spr.0@, spr.1@), entries@, config.show_hidden));
            }
            size_entries.push(spr);
            proof {
                assert(visible_entries(entries@.subrange(0, i + 1), config.show_hidden) =~= pre
                    + seq![entries@[i as int]]);
            }
        } else {
            proof {
                assert(visible_entries(entries@.subrange(0, i + 1), config.show_hidden) =~= pre);
            }
        }
        i += 1;
    }
    proof {
        assert(entries@.subrange(0, entries@.len() as int) =~= entries@);
    }
    let ghost vis = visible_entries(entries@, config.show_hidden);
    let ghost pre_nps = file_entries@;
    let ghost pre_sps = size_entries@;
    let file_entries = sort_pairs_desc(file_entries);
    let size_entries = sort_pairs_desc(size_entries);
    let ghost nps = file_entries.deep_view();
    let ghost sps = size_entries.deep_view();
    let after_names = apply_file_name_colors(String::from_str(table), file_entries);
    let r = apply_size_colors(after_names, size_entries);
    proof {
        assert(r@ == apply_size_pairs(apply_name_pairs(table@, nps), sps));
        assert(nps.len() == vis.len() && sps.len() == nps.len());
        assert(nps == file_entries.deep_view() && sps == size_entries.deep_view());
        assert forall|k: int| 0 <= k < nps.len() implies name_pair_from(
            #[trigger] nps[k],
            entries@,
            config.show_hidden,
            config.interactive,
            abs_root@,
        ) by {
            assert(pre_nps.contains(file_entries@[k]));
            let j = choose|j: int| 0 <= j < pre_nps.len() && pre_nps[j] == file_entries@[k];
            assert(name_pair_from(
                (pre_nps[j].0@, pre_nps[j].1@),
                entries@,
                config.show_hidden,
                config.interactive,
                abs_root@,
            ));
            assert(nps[k] == (file_entries@[k].0@, file_entries@[k].1@));
        }
        assert forall|k: int| 0 <= k < sps.len() implies size_pair_from(
            #[trigger] sps[k],
            entries@,
            config.show_hidden,
        ) by {
            assert(pre_sps.contains(size_entries@[k]));
            let j = choose|j: int| 0 <= j < pre_sps.len() && pre_sps[j] == size_entries@[k];
            assert(size_pair_from((pre_sps[j].0@, pre_sps[j].1@), entries@, config.show_hidden));
            assert(sps[k] == (size_entries@[k].0@, size_entries@[k].1@));
        }
        assert(pairs_complete(nps, sps, entries@, config.show_hidden)) by {
            assert forall|j: int|
                0 <= j < entries@.len() && entry_visible(
                    #[trigger] entries@[j],
                    config.show_hidden,
                ) implies (exists|k: int|
                0 <= k < nps.len() && (#[trigger] nps[k]).0 == entries@[j].name@) && (exists|
                k: int,
            |
                0 <= k < sps.len() && (#[trigger] sps[k]).0 == crate::formatting::size_text(
                    size_of_entry(entries@[j]) as nat,
                )) by {
                lemma_visible_entry_has_index(entries@, j, config.show_hidden);
                let jv = choose|jv: int| 0 <= jv < vis.len() && vis[jv] == entries@[j];
                assert(pre_nps[jv].0@ == vis[jv].name@);
                assert(file_entries@.contains(pre_nps[jv]));
                let k1 = choose|k1: int|
                    0 <= k1 < file_entries@.len() && file_entries@[k1] == pre_nps[jv];
                assert(nps[k1] == (file_entries@[k1].0@, file_entries@[k1].1@));
                assert(nps[k1].0 == entries@[j].name@);
                assert(pre_sps[jv].0@ == crate::formatting::size_text(
                    size_of_entry(vis[jv]) as nat,
                ));
                assert(size_entries@.contains(pre_sps[jv]));
                let k2 = choose|k2: int|
                    0 <= k2 < size_entries@.len() && size_entries@[k2] == pre_sps[jv];
                assert(sps[k2] == (size_entries@[k2].0@, size_entries@[k2].1@));
                assert(sps[k2].0 == crate::formatting::size_text(size_of_entry(entries@[j]) as nat));
            }
        };
        assert(pairs_longest_first(nps)) by {
            assert forall|k1: int, k2: int|
                0 <= k1 < k2 < nps.len() implies (#[trigger] nps[k1]).0.len() >= (
            #[trigger] nps[k2]).0.len() by {
                assert(file_entries@[k1].0@.len() >= file_entries@[k2].0@.len());
                assert(nps[k1] == (file_entries@[k1].0@, file_entries@[k1].1@));
                assert(nps[k2] == (file_entries@[k2].0@, file_entries@[k2].1@));
            }
        };
        assert(pairs_longest_first(sps)) by {
            assert forall|k1: int, k2: int|
                0 <= k1 < k2 < sps.len() implies (#[trigger] sps[k1]).0.len() >= (
            #[trigger] sps[k2]).0.len() by {
                assert(size_entries@[k1].0@.len() >= size_entries@[k2].0@.len());
                assert(sps[k1] == (size_entries@[k1].0@, size_entries@[k1].1@));
                assert(sps[k2] == (size_entries@[k2].0@, size_entries@[k2].1@));
            }
        };
        lemma_intro_decorated(r@, table@, entries@, *config, abs_root@, nps, sps);
        if esc_free(table@) && names_esc_free(entries@, config.show_hidden) {
            assert forall|k: int| 0 <= k < nps.len() implies pair_veiled(#[trigger] nps[k]) by {
                reveal(name_pair_from);
                assert(name_pair_from(
                    nps[k],
                    entries@,
                    config.show_hidden,
                    config.interactive,
                    abs_root@,
                ));
                let j = choose|j: int|
                    0 <= j < entries@.len() && entry_visible(
                        #[trigger] entries@[j],
                        config.show_hidden,
                    ) && nps[k].0 == entries@[j].name@ && name_decorated(
                        nps[k].1,
                        entries@[j],
                        config.interactive,
                        abs_root@,
                    );
                assert(esc_free(entries@[j].name@));
            }
            assert forall|k: int| 0 <= k < sps.len() implies pair_veiled(#[trigger] sps[k]) by {
                reveal(size_pair_from);
                assert(size_pair_from(sps[k], entries@, config.show_hidden));
            }
            lemma_esc_free_veiled_self(table@);
            lemma_apply_name_pairs_veiled(table@, table@, nps);
            lemma_apply_size_pairs_veiled(apply_name_pairs(table@, nps), table@, sps);
        }
    }
    r
}

/// A surviving entry stands somewhere in the filtered run.
proof fn lemma_visible_entry_has_index(entries: Seq<RawEntry>, j: int, show_hidden: bool)
    requires
        0 <= j < entries.len(),
        entry_visible(entries[j], show_hidden),
    ensures
        exists|jv: int|
            0 <= jv < visible_entries(entries, show_hidden).len() && #[trigger] visible_entries(
                entries,
                show_hidden,
            )[jv] == entries[j],
    decreases entries.len(),
{
    let vis = visible_entries(entries, show_hidden);
    if j == entries.len() - 1 {
        let pre = visible_entries(entries.drop_last(), show_hidden);
        assert(vis[pre.len() as int] == entries[j]);
    } else {
        lemma_visible_entry_has_index(entries.drop_last(), j, show_hidden);
        assert(entries.drop_last()[j] == entries[j]);
        let pre = visible_entries(entries.drop_last(), show_hidden);
        let jv = choose|jv: int| 0 <= jv < pre.len() && #[trigger] pre[jv] == entries[j];
        assert(vis[jv] == pre[jv]);
    }
}

/// What the rendered table shows: nothing at all when no entry survives,
/// else the decorated form of the grid over the header row and one
/// correct data row per surviving entry (degraded where metadata was
/// unreadable), with the grid's visible text intact whenever grid and
/// names are escape-free.
pub open spec fn table_output_ok(
    r: Seq<char>,
    entries: Seq<RawEntry>,
    config: Config,
    abs_root: Seq<char>,
) -> bool {
    let vis = visible_entries(entries, config.show_hidden);
    &&& (vis.len() == 0 ==> r == Seq::<char>::empty())
    &&& (vis.len() > 0 ==> exists|rows: Seq<Seq<Seq<char>>>|
        {
            &&& rows.len() == vis.len() + 1
            &&& rows[0] == header_cells()
            &&& (forall|i: int| 0 <= i < vis.len() ==> row_ok(#[trigger] rows[i + 1], vis[i]))
            &&& decorated_table_ok(r, #[trigger] grid_of(rows), entries, config, abs_root)
            &&& (esc_free(grid_of(rows)) && names_esc_free(entries, config.show_hidden) ==> veiled(
                r,
                grid_of(rows),
            ))
        })
}

/// Renders the detailed table: one data row per surviving entry, degraded
/// to the default classification where metadata was unreadable, under the
/// fixed header, then the decoration pass. An empty surviving set yields
/// no output at all, not a header-only table.
pub fn display(entries: &Vec<RawEntry>, config: &Config, abs_root: &str) -> (r: String)
    ensures
        table_output_ok(r@, entries@, *config, abs_root@),
{
    let mut rows: Vec<Vec<String>> = Vec::new();
    rows.push(build_header());
    let mut i: usize = 0;
    proof {
        assert(visible_entries(entries@.subrange(0, 0), config.show_hidden) =~= Seq::<
            RawEntry,
        >::empty());
        assert(rows.deep_view() =~= seq![header_cells()]);
    }
    while i < entries.len()
        invariant
            0 <= i <= entries@.len(),
            rows.deep_view().len() == 1 + visible_entries(
                entries@.subrange(0, i as int),
                config.show_hidden,
            ).len(),
            rows.deep_view()[0] == header_cells(),
            forall|k: int|
                0 <= k < visible_entries(entries@.subrange(0, i as int), config.show_hidden).len()
                    ==> row_ok(
                    #[trigger] rows.deep_view()[k + 1],
                    visible_entries(entries@.subrange(0, i as int), config.show_hidden)[k],
                ),
        decreases entries@.len() - i,
    {
        let ghost pre = visible_entries(entries@.subrange(0, i as int), config.show_hidden);
        proof {
            assert(entries@.subrange(0, i + 1).drop_last() =~= entries@.subrange(0, i as int));
            assert(entries@.subrange(0, i + 1).last() == entries@[i as int]);
        }
        let e = &entries[i];
        if name_visible(&e.name, config.show_hidden) {
            let ghost old_dv = rows.deep_view();
            let row = build_row(e);
            rows.push(row);
            proof {
                assert(rows.deep_view() =~= old_dv.push(row.deep_view()));
                assert(visible_entries(entries@.subrange(0, i + 1), config.show_hidden) =~= pre
                    + seq![entries@[i as int]]);
            }
        } else {
            proof {
                assert(visible_entries(entries@.subrange(0, i + 1), config.show_hidden) =~= pre);
            }
        }
        i += 1;
    }
    proof {
        assert(entries@.subrange(0, entries@.len() as int) =~= entries@);
    }
    if rows.len() == 1 {
        String::new()
    } else {
        let grid = render_grid(&rows);
        let r = apply_colors_to_table(grid.as_str(), entries, config, abs_root);
        proof {
            let vis = visible_entries(entries@, config.show_hidden);
            let rw = rows.deep_view();
            assert(rw.len() == vis.len() + 1 && rw[0] == header_cells() && (forall|k: int|
                0 <= k < vis.len() ==> row_ok(#[trigger] rw[k + 1], vis[k])) && decorated_table_ok(
                r@,
                grid_of(rw),
                entries@,
                *config,
                abs_root@,
            ) && (esc_free(grid_of(rw)) && names_esc_free(entries@, config.show_hidden) ==> veiled(
                r@,
                grid_of(rw),
            )));
        }
        r
    }
}

/// Decorating a name never reaches into the cell of a longer name that
/// merely extends it: the shorter name's bounded key cannot occur inside
/// the longer name's cell, as long as the extension does not begin with a
/// space and the longer name holds no border glyph.
pub proof fn lemma_prefix_name_cell_untouched(a: Seq<char>, b: Seq<char>, d: Seq<char>)
    requires
        a.len() < b.len(),
        b.subrange(0, a.len() as int) == a,
        b[a.len() as int] != ' ',
        forall|i: int| 0 <= i < b.len() ==> b[i] != '│',
    ensures
        spec_replace_all(name_pattern(b), name_pattern(a), name_pattern(d)) == name_pattern(b),
{
    let cell = name_pattern(b);
    let pat = name_pattern(a);
    assert(!contains_seq(cell, pat)) by {
        if contains_seq(cell, pat) {
            let i = choose|i: int|
                0 <= i <= cell.len() - pat.len() && has_prefix(#[trigger] cell.skip(i), pat);
            assert(cell.skip(i).subrange(0, pat.len() as int) =~= pat);
            if i == 0 {
                let j = 2 + a.len() as int;
                assert(cell.skip(0)[j] == cell[j]);
                assert(cell[j] == b[a.len() as int]);
                assert(cell.skip(0).subrange(0, pat.len() as int)[j] == pat[j]);
                assert(pat[j] == ' ');
            } else {
                assert(cell.skip(i)[0] == cell[i]);
                assert(cell.skip(i).subrange(0, pat.len() as int)[0] == pat[0]);
                assert(pat[0] == '│');
                assert(cell[i] == '│');
                if i == 1 {
                    assert(cell[1] == ' ');
                } else if i < 2 + b.len() {
                    assert(cell[i] == b[i - 2]);
                } else {
                    assert(cell[i] == ' ');
                }
            }
        }
    };
    lemma_replace_all_no_match(cell, pat, name_pattern(d));
}

} // verus!
