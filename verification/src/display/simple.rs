//! Flat rendering: one decorated name per line, in the given order, with
//! hidden names filtered by the configuration and hyperlinks added in
//! interactive mode.

use vstd::prelude::*;

use crate::ansi::{esc_free, veiled};
use crate::colors::{file_url, link_text, name_decor_ok};
use crate::config::Config;
use crate::display::{join_path, name_visible, path_join, visible_entries, RawEntry};
use vstd::utf8::encode_utf8;

verus! {

/// What one flat line shows for one entry: the plain name when metadata
/// was unreadable; otherwise the name colored by the fixed table (a plain
/// regular file stays exactly the bare name), wrapped in a hyperlink to
/// the entry's absolute path in interactive mode. In every case the line
/// shows exactly the name.
pub open spec fn entry_line_ok(
    line: Seq<char>,
    e: RawEntry,
    interactive: bool,
    abs_root: Seq<char>,
) -> bool {
    &&& (e.meta is None ==> line == e.name@)
    &&& (esc_free(e.name@) ==> veiled(line, e.name@))
    &&& (e.meta is Some && interactive ==> exists|body: Seq<char>|
        line == #[trigger] link_text(file_url(encode_utf8(path_join(abs_root, e.name@))), body)
            && name_decor_ok(body, e.name@, e.meta.unwrap()))
    &&& (e.meta is Some && !interactive ==> name_decor_ok(line, e.name@, e.meta.unwrap()))
}

/// Renders one surviving entry as its flat line.
fn render_line(e: &RawEntry, interactive: bool, abs_root: &str) -> (line: String)
    ensures
        entry_line_ok(line@, *e, interactive, abs_root@),
{
    match &e.meta {
        None => {
            let line = String::from_str(e.name.as_str());
            proof {
                if esc_free(e.name@) {
                    crate::ansi::lemma_esc_free_veiled_self(e.name@);
                }
                assert(entry_line_ok(line@, *e, interactive, abs_root@));
            }
            line
        },
        Some(meta) => {
            let full = join_path(abs_root, e.name.as_str());
            let line = crate::colors::format_file_name(
                e.name.as_str(),
                meta,
                interactive,
                full.as_str(),
            );
            proof {
                assert(entry_line_ok(line@, *e, interactive, abs_root@));
            }
            line
        },
    }
}

/// What the whole flat listing shows: one line per surviving entry, in
/// the given order, each line showing exactly that entry's name.
pub open spec fn flat_lines_ok(
    lines: Seq<Seq<char>>,
    entries: Seq<RawEntry>,
    config: Config,
    abs_root: Seq<char>,
) -> bool {
    let vis = visible_entries(entries, config.show_hidden);
    &&& lines.len() == vis.len()
    &&& forall|i: int|
        0 <= i < lines.len() ==> entry_line_ok(
            #[trigger] lines[i],
            vis[i],
            config.interactive,
            abs_root,
        )
}

/// Renders the flat listing: one line per entry that survives the hidden
/// policy, in the given order, each showing exactly that entry's name.
pub fn display(entries: &Vec<RawEntry>, config: &Config, abs_root: &str) -> (lines: Vec<String>)
    ensures
        flat_lines_ok(lines.deep_view(), entries@, *config, abs_root@),
{
    let mut lines: Vec<String> = Vec::new();
    let mut i: usize = 0;
    proof {
        assert(visible_entries(entries@.subrange(0, 0), config.show_hidden) =~= Seq::<
            RawEntry,
        >::empty());
    }
    while i < entries.len()
        invariant
            0 <= i <= entries@.len(),
            lines@.len() == visible_entries(entries@.subrange(0, i as int), config.show_hidden).len(),
            forall|k: int|
                0 <= k < lines@.len() ==> entry_line_ok(
                    #[trigger] lines.deep_view()[k],
                    visible_entries(entries@.subrange(0, i as int), config.show_hidden)[k],
                    config.interactive,
                    abs_root@,
                ),
        decreases entries@.len() - i,
    {
        let ghost pre = visible_entries(entries@.subrange(0, i as int), config.show_hidden);
        proof {
            assert(entries@.subrange(0, i + 1).drop_last() =~= entries@.subrange(0, i as int));
            assert(entries@.subrange(0, i + 1).last() == entries@[i as int]);
        }
        let e = &entries[i];
        if name_visible(&e.name, config.show_hidden) {
            let ghost old_dv = lines.deep_view();
            let line = render_line(e, config.interactive, abs_root);
            proof {
                let post = visible_entries(entries@.subrange(0, i + 1), config.show_hidden);
                assert(post =~= pre + seq![entries@[i as int]]);
            }
            lines.push(line);
            proof {
                assert(lines.deep_view() =~= old_dv.push(line@));
            }
        } else {
            proof {
                let post = visible_entries(entries@.subrange(0, i + 1), config.show_hidden);
                assert(post =~= pre);
            }
        }
        i += 1;
    }
    proof {
        assert(entries@.subrange(0, entries@.len() as int) =~= entries@);
        assert(lines@.len() == lines.deep_view().len());
    }
    lines
}

} // verus!
