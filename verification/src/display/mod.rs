//! The listing orchestrator's shared ground: the raw entry record that a
//! directory read yields, name ordering and sorting, hidden-name
//! filtering, and path joining.

pub mod simple;
pub mod table;
pub mod tree;

use vstd::prelude::*;

use crate::colors::spec_is_hidden_name;
use crate::config::Config;
use vstd::multiset::Multiset;
use crate::file_info::EntryMeta;

verus! {

/// One directory entry as read from the filesystem: its name and, when
/// the metadata read succeeded, its plain metadata snapshot.
pub struct RawEntry {
    pub name: String,
    pub meta: Option<EntryMeta>,
}

impl RawEntry {
    /// A field-for-field copy.
    pub fn duplicate(&self) -> (r: RawEntry)
        ensures
            r.name@ == self.name@,
            r.meta == self.meta,
    {
        RawEntry { name: self.name.clone(), meta: self.meta }
    }
}

/// Strict lexicographic order on character sequences, the order directory
/// names are listed in.
pub open spec fn lex_lt(a: Seq<char>, b: Seq<char>) -> bool
    decreases a.len(),
{
    if a.len() == 0 {
        b.len() > 0
    } else if b.len() == 0 {
        false
    } else if a[0] != b[0] {
        a[0] < b[0]
    } else {
        lex_lt(a.skip(1), b.skip(1))
    }
}

/// Compares two names in strict lexicographic order.
pub fn name_lt(a: &String, b: &String) -> (r: bool)
    ensures
        r == lex_lt(a@, b@),
{
    let av = crate::text::str_to_chars(a.as_str());
    let bv = crate::text::str_to_chars(b.as_str());
    let mut i: usize = 0;
    let alen = av.len();
    let blen = bv.len();
    proof {
        assert(a@.skip(0) =~= a@);
        assert(b@.skip(0) =~= b@);
    }
    while i < alen && i < blen
        invariant
            0 <= i <= alen,
            0 <= i <= blen,
            alen == av@.len(),
            blen == bv@.len(),
            av@ == a@,
            bv@ == b@,
            lex_lt(a@, b@) == lex_lt(a@.skip(i as int), b@.skip(i as int)),
            forall|k: int| 0 <= k < i ==> a@[k] == b@[k],
        decreases alen - i,
    {
        let ca = av[i];
        let cb = bv[i];
        proof {
            assert(a@.skip(i as int)[0] == a@[i as int]);
            assert(b@.skip(i as int)[0] == b@[i as int]);
        }
        if ca != cb {
            return ca < cb;
        }
        proof {
            assert(a@.skip(i as int).skip(1) =~= a@.skip(i + 1));
            assert(b@.skip(i as int).skip(1) =~= b@.skip(i + 1));
        }
        i += 1;
    }
    proof {
        assert(a@.skip(i as int).len() == a@.len() - i);
        assert(b@.skip(i as int).len() == b@.len() - i);
    }
    alen < blen
}

/// Lexicographic order never holds in both directions at once.
pub proof fn lemma_lex_lt_asymmetric(a: Seq<char>, b: Seq<char>)
    ensures
        !(lex_lt(a, b) && lex_lt(b, a)),
    decreases a.len(),
{
    if a.len() > 0 && b.len() > 0 && a[0] == b[0] {
        lemma_lex_lt_asymmetric(a.skip(1), b.skip(1));
    }
}

/// Lexicographic order is transitive.
pub proof fn lemma_lex_lt_transitive(a: Seq<char>, b: Seq<char>, c: Seq<char>)
    requires
        lex_lt(a, b),
        lex_lt(b, c),
    ensures
        lex_lt(a, c),
    decreases a.len(),
{
    if a.len() > 0 && b.len() > 0 && c.len() > 0 && a[0] == b[0] && b[0] == c[0] {
        lemma_lex_lt_transitive(a.skip(1), b.skip(1), c.skip(1));
    }
}

/// Any two sequences are lexicographically comparable.
pub proof fn lemma_lex_lt_connected(a: Seq<char>, b: Seq<char>)
    ensures
        lex_lt(a, b) || lex_lt(b, a) || a == b,
    decreases a.len(),
{
    if a.len() > 0 && b.len() > 0 && a[0] == b[0] {
        lemma_lex_lt_connected(a.skip(1), b.skip(1));
        if a.skip(1) == b.skip(1) {
            assert forall|i: int| 0 <= i < a.len() implies a[i] == b[i] by {
                if i > 0 {
                    assert(a.skip(1)[i - 1] == a[i] && b.skip(1)[i - 1] == b[i]);
                }
            }
            assert(a =~= b);
        }
    }
}

/// The listing order on entries: not strictly above by name.
pub open spec fn entry_le(a: RawEntry, b: RawEntry) -> bool {
    !lex_lt(b.name@, a.name@)
}

/// The listing order is transitive.
pub proof fn lemma_entry_le_transitive(a: RawEntry, b: RawEntry, c: RawEntry)
    requires
        entry_le(a, b),
        entry_le(b, c),
    ensures
        entry_le(a, c),
{
    if lex_lt(c.name@, a.name@) {
        lemma_lex_lt_connected(c.name@, b.name@);
        if lex_lt(b.name@, c.name@) {
            lemma_lex_lt_transitive(b.name@, c.name@, a.name@);
        }
    }
}

/// A run of entries in the listing order.
pub open spec fn entries_sorted(s: Seq<RawEntry>) -> bool {
    forall|i: int, j: int| 0 <= i < j < s.len() ==> entry_le(#[trigger] s[i], #[trigger] s[j])
}

proof fn lemma_insert_entry_keeps_sorted(e: RawEntry, s: Seq<RawEntry>)
    requires
        entries_sorted(s),
    ensures
        entries_sorted(spec_insert_entry(e, s)),
        spec_insert_entry(e, s).len() == s.len() + 1,
        forall|k: int|
            0 <= k < spec_insert_entry(e, s).len() ==> spec_insert_entry(e, s)[k] == e
                || s.contains(#[trigger] spec_insert_entry(e, s)[k]),
    decreases s.len(),
{
    let r = spec_insert_entry(e, s);
    if s.len() > 0 && lex_lt(s[0].name@, e.name@) {
        assert(entries_sorted(s.skip(1))) by {
            assert forall|i: int, j: int| 0 <= i < j < s.skip(1).len() implies entry_le(
                #[trigger] s.skip(1)[i],
                #[trigger] s.skip(1)[j],
            ) by {
                assert(s.skip(1)[i] == s[i + 1] && s.skip(1)[j] == s[j + 1]);
                assert(entry_le(s[i + 1], s[j + 1]));
            }
        };
        lemma_insert_entry_keeps_sorted(e, s.skip(1));
        let t = spec_insert_entry(e, s.skip(1));
        assert(r =~= seq![s[0]] + t);
        assert forall|i: int, j: int| 0 <= i < j < r.len() implies entry_le(
            #[trigger] r[i],
            #[trigger] r[j],
        ) by {
            if i == 0 {
                assert(r[j] == t[j - 1]);
                if t[j - 1] == e {
                    lemma_lex_lt_asymmetric(s[0].name@, e.name@);
                } else {
                    let x = t[j - 1];
                    assert(s.skip(1).contains(x));
                    let m = choose|m: int| 0 <= m < s.skip(1).len() && s.skip(1)[m] == x;
                    assert(s[m + 1] == x);
                    assert(entry_le(s[0], s[m + 1]));
                }
            } else {
                assert(r[i] == t[i - 1] && r[j] == t[j - 1]);
            }
        }
        assert forall|k: int| 0 <= k < r.len() implies r[k] == e || s.contains(#[trigger] r[k]) by {
            if k == 0 {
                assert(s.contains(s[0]));
            } else if !(r[k] == e) {
                assert(r[k] == t[k - 1]);
                assert(s.skip(1).contains(t[k - 1]));
                let m = choose|m: int| 0 <= m < s.skip(1).len() && s.skip(1)[m] == t[k - 1];
                assert(s[m + 1] == r[k]);
            }
        }
    } else {
        assert(r =~= seq![e] + s);
        assert forall|i: int, j: int| 0 <= i < j < r.len() implies entry_le(
            #[trigger] r[i],
            #[trigger] r[j],
        ) by {
            if i == 0 {
                assert(r[j] == s[j - 1]);
                if s.len() > 0 {
                    assert(entry_le(e, s[0]));
                    if j > 1 {
                        assert(entry_le(s[0], s[j - 1]));
                        lemma_entry_le_transitive(e, s[0], s[j - 1]);
                    }
                }
            } else {
                assert(r[i] == s[i - 1] && r[j] == s[j - 1]);
            }
        }
        assert forall|k: int| 0 <= k < r.len() implies r[k] == e || s.contains(#[trigger] r[k]) by {
            if k > 0 {
                assert(r[k] == s[k - 1]);
            }
        }
    }
}

/// The listing sort really sorts: its result is in the listing order.
pub proof fn lemma_sort_entries_sorted(s: Seq<RawEntry>)
    ensures
        entries_sorted(spec_sort_entries(s)),
    decreases s.len(),
{
    if s.len() > 0 {
        lemma_sort_entries_sorted(s.skip(1));
        lemma_insert_entry_keeps_sorted(s[0], spec_sort_entries(s.skip(1)));
    }
}

proof fn lemma_insert_entry_multiset(e: RawEntry, s: Seq<RawEntry>)
    ensures
        spec_insert_entry(e, s).to_multiset() == s.to_multiset().insert(e),
    decreases s.len(),
{
    broadcast use vstd::seq_lib::group_to_multiset_ensures;
    broadcast use vstd::seq_lib::lemma_multiset_commutative;

    let r = spec_insert_entry(e, s);
    if s.len() > 0 && lex_lt(s[0].name@, e.name@) {
        lemma_insert_entry_multiset(e, s.skip(1));
        let t = spec_insert_entry(e, s.skip(1));
        assert(r == seq![s[0]] + t);
        assert(seq![s[0]].to_multiset() =~= Multiset::<RawEntry>::empty().insert(s[0])) by {
            assert(seq![s[0]] =~= Seq::<RawEntry>::empty().push(s[0]));
            assert(Seq::<RawEntry>::empty().to_multiset() =~= Multiset::<RawEntry>::empty());
        };
        assert(s =~= seq![s[0]] + s.skip(1));
        assert(r.to_multiset() =~= s.to_multiset().insert(e));
    } else {
        assert(r == seq![e] + s);
        assert(seq![e].to_multiset() =~= Multiset::<RawEntry>::empty().insert(e)) by {
            assert(seq![e] =~= Seq::<RawEntry>::empty().push(e));
            assert(Seq::<RawEntry>::empty().to_multiset() =~= Multiset::<RawEntry>::empty());
        };
        assert(r.to_multiset() =~= s.to_multiset().insert(e));
    }
}

/// The listing sort keeps exactly the given entries: a permutation.
pub proof fn lemma_sort_entries_permutes(s: Seq<RawEntry>)
    ensures
        spec_sort_entries(s).to_multiset() == s.to_multiset(),
    decreases s.len(),
{
    broadcast use vstd::seq_lib::group_to_multiset_ensures;

    if s.len() == 0 {
        assert(spec_sort_entries(s).to_multiset() =~= s.to_multiset());
    } else {
        lemma_sort_entries_permutes(s.skip(1));
        lemma_insert_entry_multiset(s[0], spec_sort_entries(s.skip(1)));
        assert(s =~= Seq::<RawEntry>::empty().push(s[0]) + s.skip(1));
        broadcast use vstd::seq_lib::lemma_multiset_commutative;

        assert(Seq::<RawEntry>::empty().to_multiset() =~= Multiset::<RawEntry>::empty());
        assert((Seq::<RawEntry>::empty().push(s[0])).to_multiset() =~= Multiset::<
            RawEntry,
        >::empty().insert(s[0]));
        assert(s.to_multiset() =~= s.skip(1).to_multiset().insert(s[0]));
        assert(spec_sort_entries(s).to_multiset() =~= s.to_multiset());
    }
}

/// Where one more entry lands in an already sorted run: before the first
/// entry whose name is not strictly below its own, so an equal name keeps
/// the earlier entry first.
pub open spec fn spec_insert_entry(e: RawEntry, s: Seq<RawEntry>) -> Seq<RawEntry>
    decreases s.len(),
{
    if s.len() > 0 && lex_lt(s[0].name@, e.name@) {
        seq![s[0]] + spec_insert_entry(e, s.skip(1))
    } else {
        seq![e] + s
    }
}

/// The listing order: entries sorted by name, stably.
pub open spec fn spec_sort_entries(s: Seq<RawEntry>) -> Seq<RawEntry>
    decreases s.len(),
{
    if s.len() == 0 {
        Seq::<RawEntry>::empty()
    } else {
        spec_insert_entry(s[0], spec_sort_entries(s.skip(1)))
    }
}

fn insert_entry(mut out: Vec<RawEntry>, e: RawEntry) -> (r: Vec<RawEntry>)
    ensures
        r@ == spec_insert_entry(e, out@),
{
    let mut j: usize = 0;
    while j < out.len() && name_lt(&out[j].name, &e.name)
        invariant
            0 <= j <= out@.len(),
            forall|k: int| 0 <= k < j ==> lex_lt(#[trigger] out@[k].name@, e.name@),
        decreases out@.len() - j,
    {
        j += 1;
    }
    proof {
        lemma_insert_entry_at(e, out@, j as int);
    }
    out.insert(j, e);
    out
}

/// Inserting at the first position whose entry is not strictly below the
/// new name is exactly the recursive insertion.
proof fn lemma_insert_entry_at(e: RawEntry, s: Seq<RawEntry>, j: int)
    requires
        0 <= j <= s.len(),
        forall|k: int| 0 <= k < j ==> lex_lt(#[trigger] s[k].name@, e.name@),
        j < s.len() ==> !lex_lt(s[j].name@, e.name@),
    ensures
        spec_insert_entry(e, s) == s.subrange(0, j) + seq![e] + s.skip(j),
    decreases j,
{
    if j == 0 {
        if s.len() > 0 && lex_lt(s[0].name@, e.name@) {
            assert(false);
        }
        assert(s.subrange(0, 0) + seq![e] + s.skip(0) =~= seq![e] + s);
    } else {
        assert(lex_lt(s[0].name@, e.name@));
        lemma_insert_entry_at(e, s.skip(1), j - 1);
        assert(s.skip(1).subrange(0, j - 1) =~= s.subrange(1, j));
        assert(s.skip(1).skip(j - 1) =~= s.skip(j));
        assert(seq![s[0]] + (s.subrange(1, j) + seq![e] + s.skip(j)) =~= s.subrange(0, j)
            + seq![e] + s.skip(j));
    }
}

/// Sorts entries by name, stably, into the listing order.
pub fn sort_entries(entries: Vec<RawEntry>) -> (r: Vec<RawEntry>)
    ensures
        r@ == spec_sort_entries(entries@),
{
    let ghost orig = entries@;
    let mut v = entries;
    let mut out: Vec<RawEntry> = Vec::new();
    proof {
        assert(orig.skip(orig.len() as int) =~= Seq::<RawEntry>::empty());
        assert(orig.subrange(0, orig.len() as int) =~= orig);
    }
    while v.len() > 0
        invariant
            v@.len() <= orig.len(),
            v@ == orig.subrange(0, v@.len() as int),
            out@ == spec_sort_entries(orig.skip(v@.len() as int)),
        decreases v@.len(),
    {
        let ghost i = v@.len() as int;
        let ghost vpre = v@;
        let e = v.pop().unwrap();
        proof {
            assert(e == vpre.last());
            assert(vpre[i - 1] == orig.subrange(0, i)[i - 1]);
            assert(e == orig[i - 1]);
            assert(orig.skip(i - 1)[0] == orig[i - 1]);
            assert(orig.skip(i - 1).skip(1) =~= orig.skip(i));
            assert(v@ =~= orig.subrange(0, i - 1));
        }
        out = insert_entry(out, e);
    }
    proof {
        assert(orig.skip(0) =~= orig);
    }
    out
}

/// Whether an entry survives the hidden-name policy.
pub open spec fn entry_visible(e: RawEntry, show_hidden: bool) -> bool {
    show_hidden || !spec_is_hidden_name(e.name@)
}

/// The entries that survive the hidden-name policy, in their given order.
pub open spec fn visible_entries(s: Seq<RawEntry>, show_hidden: bool) -> Seq<RawEntry>
    decreases s.len(),
{
    if s.len() == 0 {
        Seq::<RawEntry>::empty()
    } else {
        visible_entries(s.drop_last(), show_hidden) + (if entry_visible(s.last(), show_hidden) {
            seq![s.last()]
        } else {
            Seq::<RawEntry>::empty()
        })
    }
}

/// Filtering by the hidden-name policy keeps the listing order: the
/// surviving entries of a sorted run are still sorted, and each one is an
/// entry of the run.
pub proof fn lemma_visible_entries_sorted(s: Seq<RawEntry>, show_hidden: bool)
    requires
        entries_sorted(s),
    ensures
        entries_sorted(visible_entries(s, show_hidden)),
        forall|k: int|
            0 <= k < visible_entries(s, show_hidden).len() ==> s.contains(
                #[trigger] visible_entries(s, show_hidden)[k],
            ),
    decreases s.len(),
{
    if s.len() > 0 {
        let pre = s.drop_last();
        assert(entries_sorted(pre)) by {
            assert(forall|i: int, j: int|
                0 <= i < j < pre.len() ==> #[trigger] pre[i] == s[i] && #[trigger] pre[j] == s[j]);
        };
        lemma_visible_entries_sorted(pre, show_hidden);
        let v = visible_entries(s, show_hidden);
        let vp = visible_entries(pre, show_hidden);
        assert forall|k: int| 0 <= k < v.len() implies s.contains(#[trigger] v[k]) by {
            if k < vp.len() {
                assert(v[k] == vp[k]);
                assert(pre.contains(vp[k]));
                let j = choose|j: int| 0 <= j < pre.len() && pre[j] == vp[k];
                assert(s[j] == v[k]);
            } else {
                assert(v[k] == s.last());
                assert(s[s.len() - 1] == s.last());
            }
        }
        assert forall|i: int, j: int| 0 <= i < j < v.len() implies entry_le(
            #[trigger] v[i],
            #[trigger] v[j],
        ) by {
            if j < vp.len() {
                assert(v[i] == vp[i] && v[j] == vp[j]);
            } else {
                assert(v[j] == s.last());
                assert(v[i] == vp[i]);
                assert(pre.contains(vp[i]));
                let m = choose|m: int| 0 <= m < pre.len() && pre[m] == vp[i];
                assert(s[m] == v[i]);
                if s.len() > 1 {
                    assert(entry_le(s[m], s[s.len() - 1]));
                } else {
                    assert(false);
                }
            }
        }
    }
}

/// Checks the hidden-name policy on one name.
pub fn name_visible(name: &String, show_hidden: bool) -> (r: bool)
    ensures
        r == (show_hidden || !spec_is_hidden_name(name@)),
{
    if show_hidden {
        true
    } else {
        let hidden = name.as_str().unicode_len() > 0 && name.as_str().get_char(0) == '.';
        !hidden
    }
}

/// A path joined to a name below it: a separating slash is added unless
/// the path already ends in one.
pub open spec fn path_join(root: Seq<char>, name: Seq<char>) -> Seq<char> {
    if root.len() > 0 && root.last() == '/' {
        root + name
    } else {
        root + seq!['/'] + name
    }
}

/// Joins a directory path and a child name.
pub fn join_path(root: &str, name: &str) -> (r: String)
    ensures
        r@ == path_join(root@, name@),
{
    let mut r = String::from_str(root);
    let n = root.unicode_len();
    let ends_slash = n > 0 && root.get_char(n - 1) == '/';
    if !ends_slash {
        r.append("/");
        proof {
            reveal_strlit("/");
            assert(root@ + "/"@ =~= root@ + seq!['/']);
        }
    }
    r.append(name);
    proof {
        if !(root@.len() > 0 && root@.last() == '/') {
            assert(r@ =~= root@ + seq!['/'] + name@);
        }
    }
    r
}

/// What one invocation is asked to render: a flat snapshot of one
/// directory's entries, or a recursive snapshot for the tree mode.
pub enum Listing {
    Flat(Vec<RawEntry>),
    Tree(Vec<crate::display::tree::TreeNode>),
}

/// Renders one listing: the main entry point. A flat snapshot is sorted
/// by name and rendered as the flat list or, in long format, as the
/// decorated table (one output block, or none when no entry survives); a
/// tree snapshot is rendered as the tree. Each returned item is one line
/// of output, except the table, which is one block.
pub fn list_directory(listing: Listing, config: &Config, abs_root: &str) -> (out: Vec<String>)
    ensures
        listing is Tree ==> crate::display::tree::tree_output_ok(
            out.deep_view(),
            listing->Tree_0@,
            *config,
        ),
        listing is Flat && !config.long_format ==> crate::display::simple::flat_lines_ok(
            out.deep_view(),
            spec_sort_entries(listing->Flat_0@),
            *config,
            abs_root@,
        ),
        listing is Flat && config.long_format ==> ({
            let vis = visible_entries(spec_sort_entries(listing->Flat_0@), config.show_hidden);
            &&& (vis.len() == 0 ==> out@.len() == 0)
            &&& (vis.len() > 0 ==> out@.len() == 1 && crate::display::table::table_output_ok(
                out.deep_view()[0],
                spec_sort_entries(listing->Flat_0@),
                *config,
                abs_root@,
            ))
        }),
{
    match listing {
        Listing::Tree(nodes) => crate::display::tree::display(nodes, config, abs_root),
        Listing::Flat(entries) => {
            let sorted = sort_entries(entries);
            if config.long_format {
                let mut has_row = false;
                let mut i: usize = 0;
                proof {
                    assert(visible_entries(sorted@.subrange(0, 0), config.show_hidden) =~= Seq::<
                        RawEntry,
                    >::empty());
                }
                while i < sorted.len()
                    invariant
                        0 <= i <= sorted@.len(),
                        has_row == (visible_entries(
                            sorted@.subrange(0, i as int),
                            config.show_hidden,
                        ).len() > 0),
                    decreases sorted@.len() - i,
                {
                    let ghost pre = visible_entries(
                        sorted@.subrange(0, i as int),
                        config.show_hidden,
                    );
                    proof {
                        assert(sorted@.subrange(0, i + 1).drop_last() =~= sorted@.subrange(
                            0,
                            i as int,
                        ));
                        assert(sorted@.subrange(0, i + 1).last() == sorted@[i as int]);
                    }
                    let e = &sorted[i];
                    if name_visible(&e.name, config.show_hidden) {
                        has_row = true;
                        proof {
                            assert(visible_entries(
                                sorted@.subrange(0, i + 1),
                                config.show_hidden,
                            ) =~= pre + seq![sorted@[i as int]]);
                        }
                    } else {
                        proof {
                            assert(visible_entries(
                                sorted@.subrange(0, i + 1),
                                config.show_hidden,
                            ) =~= pre);
                        }
                    }
                    i += 1;
                }
                proof {
                    assert(sorted@.subrange(0, sorted@.len() as int) =~= sorted@);
                }
                let mut out: Vec<String> = Vec::new();
                if has_row {
                    let block = crate::display::table::display(&sorted, config, abs_root);
                    out.push(block);
                    proof {
                        assert(out.deep_view() =~= seq![block@]);
                    }
                }
                out
            } else {
                crate::display::simple::display(&sorted, config, abs_root)
            }
        },
    }
}

/// Lines joined by newlines, with no trailing newline.
pub open spec fn join_lines(lines: Seq<Seq<char>>) -> Seq<char>
    decreases lines.len(),
{
    if lines.len() == 0 {
        Seq::<char>::empty()
    } else if lines.len() == 1 {
        lines[0]
    } else {
        join_lines(lines.drop_last()) + seq!['\n'] + lines.last()
    }
}

/// Joins rendered lines into one block of output text.
pub fn join_output(lines: &Vec<String>) -> (r: String)
    ensures
        r@ == join_lines(lines.deep_view()),
{
    let mut r = String::new();
    let mut i: usize = 0;
    proof {
        assert(lines.deep_view().subrange(0, 0) =~= Seq::<Seq<char>>::empty());
    }
    while i < lines.len()
        invariant
            0 <= i <= lines@.len(),
            lines.deep_view().len() == lines@.len(),
            r@ == join_lines(lines.deep_view().subrange(0, i as int)),
            forall|k: int|
                0 <= k < lines@.len() ==> lines.deep_view()[k] == #[trigger] lines@[k]@,
        decreases lines@.len() - i,
    {
        if i > 0 {
            r.append("\n");
            proof {
                reveal_strlit("\n");
            }
        }
        r.append(lines[i].as_str());
        proof {
            let pre = lines.deep_view().subrange(0, i as int);
            let cur = lines.deep_view().subrange(0, i + 1);
            assert(cur.drop_last() =~= pre);
            assert(cur.last() == lines@[i as int]@);
            if i == 0 {
                assert(r@ =~= join_lines(cur));
            } else {
                assert(r@ =~= join_lines(pre) + seq!['\n'] + lines@[i as int]@);
            }
        }
        i += 1;
    }
    proof {
        assert(lines.deep_view().subrange(0, lines@.len() as int) =~= lines.deep_view());
    }
    r
}

} // verus!
