//! Color and hyperlink decoration: mapping a classified entry to a style,
//! color-coding sizes by magnitude, and wrapping names in terminal
//! hyperlinks over percent-encoded `file://` targets.

use vstd::prelude::*;

use colored::Colorize;

use vstd::string::StringSliceAdditionalSpecFns;

use crate::ansi::{
    esc, esc_free, is_osc, lemma_styled_as_styled, lemma_styled_veiled, lemma_veiled_concat,
    styled, styled_as, veiled,
};
use crate::file_info::{spec_is_executable, EntryMeta};
use crate::text::digit_char;

verus! {

/// The style parameters of the fixed color table: hidden names are
/// dimmed (bright black).
pub open spec fn dim_params() -> Seq<char> {
    seq!['9', '0']
}

/// Directories: bold blue.
pub open spec fn dir_params() -> Seq<char> {
    seq!['1', ';', '3', '4']
}

/// Executables: bold green.
pub open spec fn exec_params() -> Seq<char> {
    seq!['1', ';', '3', '2']
}

/// The tree root label: bold bright blue.
pub open spec fn root_params() -> Seq<char> {
    seq!['1', ';', '9', '4']
}

/// Sizes under a mebibyte: green.
pub open spec fn size_small_params() -> Seq<char> {
    seq!['3', '2']
}

/// Sizes from a mebibyte up: yellow.
pub open spec fn size_medium_params() -> Seq<char> {
    seq!['3', '3']
}

/// Sizes from a hundred mebibytes up: magenta.
pub open spec fn size_large_params() -> Seq<char> {
    seq!['3', '5']
}

/// Sizes from a gibibyte up: bold red.
pub open spec fn size_huge_params() -> Seq<char> {
    seq!['1', ';', '3', '1']
}

/// Relies on colored's `Colorize::bright_black` and `ColoredString`'s
/// `Display`: with colors enabled, an escape-free input comes back between
/// exactly the dim style sequence and the reset sequence; otherwise
/// unchanged.
#[verifier::external_body]
fn color_hidden(s: &str) -> (r: String)
    ensures
        esc_free(s@) ==> styled_as(r@, s@, dim_params()),
{
    format!("{}", s.bright_black())
}

/// Relies on colored's `Colorize::blue` and `bold`: same shape as every
/// other style call, a single style sequence and a reset around the text.
#[verifier::external_body]
fn color_directory(s: &str) -> (r: String)
    ensures
        esc_free(s@) ==> styled_as(r@, s@, dir_params()),
{
    format!("{}", s.blue().bold())
}

/// Relies on colored's `Colorize::green` and `bold`.
#[verifier::external_body]
fn color_executable(s: &str) -> (r: String)
    ensures
        esc_free(s@) ==> styled_as(r@, s@, exec_params()),
{
    format!("{}", s.green().bold())
}

/// Relies on colored's `Colorize::bright_blue` and `bold`.
#[verifier::external_body]
fn color_tree_root(s: &str) -> (r: String)
    ensures
        esc_free(s@) ==> styled_as(r@, s@, root_params()),
{
    format!("{}", s.bright_blue().bold())
}

/// Relies on colored's `Colorize::green`.
#[verifier::external_body]
fn color_size_small(s: &str) -> (r: String)
    ensures
        esc_free(s@) ==> styled_as(r@, s@, size_small_params()),
{
    format!("{}", s.green())
}

/// Relies on colored's `Colorize::yellow`.
#[verifier::external_body]
fn color_size_medium(s: &str) -> (r: String)
    ensures
        esc_free(s@) ==> styled_as(r@, s@, size_medium_params()),
{
    format!("{}", s.yellow())
}

/// Relies on colored's `Colorize::magenta`.
#[verifier::external_body]
fn color_size_large(s: &str) -> (r: String)
    ensures
        esc_free(s@) ==> styled_as(r@, s@, size_large_params()),
{
    format!("{}", s.magenta())
}

/// Relies on colored's `Colorize::red` and `bold`.
#[verifier::external_body]
fn color_size_huge(s: &str) -> (r: String)
    ensures
        esc_free(s@) ==> styled_as(r@, s@, size_huge_params()),
{
    format!("{}", s.red().bold())
}

/// Whether a name is hidden: its first character is a dot.
pub open spec fn spec_is_hidden_name(name: Seq<char>) -> bool {
    name.len() > 0 && name[0] == '.'
}

/// Style parameter lists hold only digits and separators.
proof fn lemma_class_params_wf()
    ensures
        forall|i: int|
            0 <= i < dim_params().len() ==> crate::ansi::is_sgr_param(#[trigger] dim_params()[i]),
        forall|i: int|
            0 <= i < dir_params().len() ==> crate::ansi::is_sgr_param(#[trigger] dir_params()[i]),
        forall|i: int|
            0 <= i < exec_params().len() ==> crate::ansi::is_sgr_param(
                #[trigger] exec_params()[i],
            ),
        forall|i: int|
            0 <= i < root_params().len() ==> crate::ansi::is_sgr_param(
                #[trigger] root_params()[i],
            ),
        forall|i: int|
            0 <= i < size_small_params().len() ==> crate::ansi::is_sgr_param(
                #[trigger] size_small_params()[i],
            ),
        forall|i: int|
            0 <= i < size_medium_params().len() ==> crate::ansi::is_sgr_param(
                #[trigger] size_medium_params()[i],
            ),
        forall|i: int|
            0 <= i < size_large_params().len() ==> crate::ansi::is_sgr_param(
                #[trigger] size_large_params()[i],
            ),
        forall|i: int|
            0 <= i < size_huge_params().len() ==> crate::ansi::is_sgr_param(
                #[trigger] size_huge_params()[i],
            ),
{
}

/// What coloring a name guarantees: the fixed color table, hidden taking
/// precedence over directory over executable, with a plain name left
/// exactly as it is. Each styled case is the name unchanged (colors off)
/// or between exactly its class's style sequence and the reset.
#[verifier::opaque]
pub open spec fn name_decor_ok(r: Seq<char>, name: Seq<char>, meta: EntryMeta) -> bool {
    &&& (esc_free(name) ==> styled(r, name))
    &&& (spec_is_hidden_name(name) && esc_free(name) ==> styled_as(r, name, dim_params()))
    &&& (!spec_is_hidden_name(name) && meta.is_dir && esc_free(name) ==> styled_as(
        r,
        name,
        dir_params(),
    ))
    &&& (!spec_is_hidden_name(name) && !meta.is_dir && spec_is_executable(meta.mode) && esc_free(
        name,
    ) ==> styled_as(r, name, exec_params()))
    &&& (!spec_is_hidden_name(name) && !meta.is_dir && !spec_is_executable(meta.mode) ==> r
        == name)
}

/// Colors a file name by its classification, hidden taking precedence
/// over directory, which takes precedence over executable: hidden names
/// dim, directories bold blue, executables bold green; anything else
/// stays plain.
pub fn get_colored_name(file_name: &str, meta: &EntryMeta) -> (r: String)
    ensures
        name_decor_ok(r@, file_name@, *meta),
{
    let hidden = file_name.unicode_len() > 0 && file_name.get_char(0) == '.';
    let r = if hidden {
        color_hidden(file_name)
    } else if meta.is_dir {
        color_directory(file_name)
    } else if crate::file_info::is_executable(meta.mode) {
        color_executable(file_name)
    } else {
        String::from_str(file_name)
    };
    proof {
        reveal(name_decor_ok);
        lemma_class_params_wf();
        if esc_free(file_name@) {
            if spec_is_hidden_name(file_name@) {
                lemma_styled_as_styled(r@, file_name@, dim_params());
            } else if meta.is_dir {
                lemma_styled_as_styled(r@, file_name@, dir_params());
            } else if spec_is_executable(meta.mode) {
                lemma_styled_as_styled(r@, file_name@, exec_params());
            }
        }
    }
    r
}

/// Colors a tree root label bold bright blue.
pub fn get_colored_root(path: &str) -> (r: String)
    ensures
        esc_free(path@) ==> styled_as(r@, path@, root_params()),
        esc_free(path@) ==> styled(r@, path@),
{
    let r = color_tree_root(path);
    proof {
        lemma_class_params_wf();
        if esc_free(path@) {
            lemma_styled_as_styled(r@, path@, root_params());
        }
    }
    r
}

pub const HUNDRED_MIB: u64 = 104857600;

/// What coloring a size guarantees: the band table, half-open bands
/// checked from the largest down, each case the text unchanged (colors
/// off) or between exactly its band's style sequence and the reset.
#[verifier::opaque]
pub open spec fn size_decor_ok(r: Seq<char>, s: Seq<char>, bytes: u64) -> bool {
    &&& (esc_free(s) ==> styled(r, s))
    &&& (bytes >= crate::formatting::GIB && esc_free(s) ==> styled_as(r, s, size_huge_params()))
    &&& (HUNDRED_MIB <= bytes && bytes < crate::formatting::GIB && esc_free(s) ==> styled_as(
        r,
        s,
        size_large_params(),
    ))
    &&& (crate::formatting::MIB <= bytes && bytes < HUNDRED_MIB && esc_free(s) ==> styled_as(
        r,
        s,
        size_medium_params(),
    ))
    &&& (bytes < crate::formatting::MIB && esc_free(s) ==> styled_as(r, s, size_small_params()))
}

/// Colors a formatted size by its magnitude, checked from the largest
/// band down so boundary values take the higher band: at least a gibibyte
/// bold red, at least a hundred mebibytes magenta, at least a mebibyte
/// yellow, anything smaller green.
pub fn get_colored_size(size_str: &str, size_bytes: u64) -> (r: String)
    ensures
        size_decor_ok(r@, size_str@, size_bytes),
        esc_free(size_str@) ==> styled(r@, size_str@),
{
    let r = if size_bytes >= crate::formatting::GIB {
        color_size_huge(size_str)
    } else if size_bytes >= HUNDRED_MIB {
        color_size_large(size_str)
    } else if size_bytes >= crate::formatting::MIB {
        color_size_medium(size_str)
    } else {
        color_size_small(size_str)
    };
    proof {
        reveal(size_decor_ok);
        lemma_class_params_wf();
        if esc_free(size_str@) {
            if size_bytes >= crate::formatting::GIB {
                lemma_styled_as_styled(r@, size_str@, size_huge_params());
            } else if size_bytes >= HUNDRED_MIB {
                lemma_styled_as_styled(r@, size_str@, size_large_params());
            } else if size_bytes >= crate::formatting::MIB {
                lemma_styled_as_styled(r@, size_str@, size_medium_params());
            } else {
                lemma_styled_as_styled(r@, size_str@, size_small_params());
            }
        }
    }
    r
}

/// An ASCII letter or digit, which percent-encoding leaves as it is.
pub open spec fn is_ascii_alnum(b: u8) -> bool {
    (48 <= b && b <= 57) || (65 <= b && b <= 90) || (97 <= b && b <= 122)
}

/// An uppercase hexadecimal digit character.
pub open spec fn hex_digit(n: nat) -> char
    recommends
        n < 16,
{
    if n < 10 {
        digit_char(n)
    } else {
        ((55 + n) as u8) as char
    }
}

/// The percent-encoding of one byte: alphanumerics stay, anything else
/// becomes a percent sign and two uppercase hex digits.
pub open spec fn pe_byte_text(b: u8) -> Seq<char> {
    if is_ascii_alnum(b) {
        seq![b as char]
    } else {
        seq!['%', hex_digit((b >> 4) as nat), hex_digit((b & 15) as nat)]
    }
}

/// A whole path percent-encoded byte by byte, except that slashes and
/// colons stay as they are so the URL keeps its shape.
pub open spec fn encoded_path(bs: Seq<u8>) -> Seq<char>
    decreases bs.len(),
{
    if bs.len() == 0 {
        Seq::<char>::empty()
    } else {
        (if bs[0] == 47 {
            seq!['/']
        } else if bs[0] == 58 {
            seq![':']
        } else {
            pe_byte_text(bs[0])
        }) + encoded_path(bs.skip(1))
    }
}

/// The `file://` URL over a path's encoded bytes.
pub open spec fn file_url(bs: Seq<u8>) -> Seq<char> {
    "file://"@ + encoded_path(bs)
}

/// The hyperlink opener around a URL: `ESC ] 8 ; ; url ESC \`.
pub open spec fn osc_open(url: Seq<char>) -> Seq<char> {
    seq![esc(), ']', '8', ';', ';'] + url + seq![esc(), '\\']
}

/// The hyperlink closer: an opener with an empty URL.
pub open spec fn osc_close() -> Seq<char> {
    seq![esc(), ']', '8', ';', ';', esc(), '\\']
}

/// A complete hyperlink: the display text between opener and closer.
pub open spec fn link_text(url: Seq<char>, body: Seq<char>) -> Seq<char> {
    osc_open(url) + body + osc_close()
}

/// Characters that may stand inside a hyperlink piece: anything but an
/// escape, a border glyph or a space.
pub open spec fn osc_safe(s: Seq<char>) -> bool {
    forall|i: int| 0 <= i < s.len() ==> #[trigger] s[i] != esc() && s[i] != '│' && s[i] != ' '
}

/// A hex digit character is never an escape, a border glyph or a space.
proof fn lemma_hex_digit_safe(n: nat)
    requires
        n < 16,
    ensures
        hex_digit(n) != esc() && hex_digit(n) != '│' && hex_digit(n) != ' ',
{
    if n < 10 {
        assert(digit_char(n) == ((48 + n) as u8) as char);
        assert((((48 + n) as u8) as char) as nat == 48 + n);
    } else {
        assert((((55 + n) as u8) as char) as nat == 55 + n);
    }
}

/// An encoded path holds only URL characters, all of them safe inside a
/// hyperlink piece.
pub proof fn lemma_encoded_path_osc_safe(bs: Seq<u8>)
    ensures
        osc_safe(encoded_path(bs)),
    decreases bs.len(),
{
    if bs.len() > 0 {
        lemma_encoded_path_osc_safe(bs.skip(1));
        let head: Seq<char> = if bs[0] == 47 {
            seq!['/']
        } else if bs[0] == 58 {
            seq![':']
        } else {
            pe_byte_text(bs[0])
        };
        assert forall|i: int| 0 <= i < head.len() implies #[trigger] head[i] != esc() && head[i]
            != '│' && head[i] != ' ' by {
            if bs[0] != 47 && bs[0] != 58 {
                if is_ascii_alnum(bs[0]) {
                    assert(head[0] == bs[0] as char);
                    assert((bs[0] as char) as nat == bs[0] as nat);
                } else {
                    let b0 = bs[0];
                    assert(b0 >> 4 < 16 && b0 & 15 < 16) by (bit_vector);
                    lemma_hex_digit_safe((b0 >> 4) as nat);
                    lemma_hex_digit_safe((b0 & 15) as nat);
                }
            }
        }
        assert forall|i: int|
            0 <= i < encoded_path(bs).len() implies #[trigger] encoded_path(bs)[i] != esc()
            && encoded_path(bs)[i] != '│' && encoded_path(bs)[i] != ' ' by {
            if i < head.len() {
                assert(encoded_path(bs)[i] == head[i]);
            } else {
                assert(encoded_path(bs)[i] == encoded_path(bs.skip(1))[i - head.len()]);
            }
        }
    }
}

/// A whole `file://` URL is safe inside a hyperlink piece.
pub proof fn lemma_file_url_osc_safe(bs: Seq<u8>)
    ensures
        osc_safe(file_url(bs)),
{
    reveal_strlit("file://");
    lemma_encoded_path_osc_safe(bs);
    assert forall|i: int| 0 <= i < file_url(bs).len() implies #[trigger] file_url(bs)[i] != esc()
        && file_url(bs)[i] != '│' && file_url(bs)[i] != ' ' by {
        if i < 7 {
            assert(file_url(bs)[i] == "file://"@[i]);
        } else {
            assert(file_url(bs)[i] == encoded_path(bs)[i - 7]);
        }
    }
}

/// A hyperlink over a safe URL is the body with two zero-width pieces
/// around it: linking never changes what is shown.
pub proof fn lemma_link_veiled(url: Seq<char>, body: Seq<char>, plain: Seq<char>)
    requires
        osc_safe(url),
        veiled(body, plain),
    ensures
        veiled(link_text(url, body), plain),
{
    let opener = osc_open(url);
    let closer = osc_close();
    assert(is_osc(opener)) by {
        assert forall|i: int|
            2 <= i < opener.len() - 2 implies #[trigger] opener[i] != esc() && opener[i] != '│'
            && opener[i] != ' ' by {
            if i >= 5 {
                assert(opener[i] == url[i - 5]);
            }
        }
    };
    assert(is_osc(closer));
    crate::ansi::lemma_piece_veiled_empty(opener);
    crate::ansi::lemma_piece_veiled_empty(closer);
    lemma_veiled_concat(body, plain, closer, Seq::<char>::empty());
    assert(plain + Seq::<char>::empty() =~= plain);
    lemma_veiled_concat(opener, Seq::<char>::empty(), body + closer, plain);
    assert(Seq::<char>::empty() + plain =~= plain);
    assert(opener + (body + closer) =~= link_text(url, body));
}

/// Relies on percent_encoding::percent_encode with NON_ALPHANUMERIC: an
/// ASCII alphanumeric byte stays itself, any other byte becomes a percent
/// sign and two uppercase hex digits.
#[verifier::external_body]
fn percent_encode_single(b: u8) -> (r: String)
    ensures
        r@ == pe_byte_text(b),
{
    let bytes = [b];
    percent_encoding::percent_encode(&bytes, percent_encoding::NON_ALPHANUMERIC).to_string()
}

/// Wraps already-decorated display text in a terminal hyperlink pointing
/// at the absolute path, percent-encoding every path byte except slashes
/// and colons. Never fails, whatever the path holds.
pub fn make_clickable_link(full_path: &str, colored_name: &str) -> (r: String)
    ensures
        r@ == link_text(file_url(full_path.spec_bytes()), colored_name@),
{
    let bytes = full_path.as_bytes();
    let mut url = String::from_str("file://");
    let mut i: usize = 0;
    proof {
        assert(bytes@.subrange(0, 0) =~= Seq::<u8>::empty());
        assert(url@ =~= "file://"@ + encoded_path(bytes@.subrange(0, 0)));
    }
    while i < bytes.len()
        invariant
            0 <= i <= bytes@.len(),
            url@ == "file://"@ + encoded_path(bytes@.subrange(0, i as int)),
        decreases bytes@.len() - i,
    {
        let b = bytes[i];
        if b == 47 {
            url.append("/");
            proof {
                reveal_strlit("/");
            }
        } else if b == 58 {
            url.append(":");
            proof {
                reveal_strlit(":");
            }
        } else {
            let piece = percent_encode_single(b);
            url.append(piece.as_str());
        }
        proof {
            lemma_encoded_step(bytes@, i as int);
        }
        i += 1;
    }
    proof {
        assert(bytes@.subrange(0, bytes@.len() as int) =~= bytes@);
    }
    let mut r = String::from_str("\x1b]8;;");
    r.append(url.as_str());
    r.append("\x1b\\");
    r.append(colored_name);
    r.append("\x1b]8;;\x1b\\");
    proof {
        reveal_strlit("\x1b]8;;");
        reveal_strlit("\x1b\\");
        reveal_strlit("\x1b]8;;\x1b\\");
        assert(r@ =~= link_text(file_url(full_path.spec_bytes()), colored_name@));
    }
    r
}

/// Decorates one name for display: its classified coloring under the
/// fixed color table, wrapped in a hyperlink to the given absolute path
/// when interactive. The decorated text always shows exactly the name.
pub fn format_file_name(name: &str, meta: &EntryMeta, interactive: bool, full_path: &str) -> (r:
    String)
    ensures
        esc_free(name@) ==> veiled(r@, name@),
        interactive ==> exists|body: Seq<char>|
            r@ == #[trigger] link_text(
                file_url(vstd::utf8::encode_utf8(full_path@)),
                body,
            ) && name_decor_ok(body, name@, *meta),
        !interactive ==> name_decor_ok(r@, name@, *meta),
{
    let colored = get_colored_name(name, meta);
    if interactive {
        let r = make_clickable_link(full_path, colored.as_str());
        proof {
            let url = file_url(full_path.spec_bytes());
            if esc_free(name@) {
                reveal(name_decor_ok);
                lemma_styled_veiled(colored@, name@);
                lemma_file_url_osc_safe(full_path.spec_bytes());
                lemma_link_veiled(url, colored@, name@);
            }
            assert(r@ == link_text(url, colored@) && name_decor_ok(colored@, name@, *meta));
        }
        r
    } else {
        proof {
            if esc_free(name@) {
                reveal(name_decor_ok);
                lemma_styled_veiled(colored@, name@);
            }
        }
        colored
    }
}

/// One more byte extends an encoded path by that byte's encoding.
proof fn lemma_encoded_step(bs: Seq<u8>, i: int)
    requires
        0 <= i < bs.len(),
    ensures
        encoded_path(bs.subrange(0, i + 1)) == encoded_path(bs.subrange(0, i)) + (if bs[i] == 47 {
            seq!['/']
        } else if bs[i] == 58 {
            seq![':']
        } else {
            pe_byte_text(bs[i])
        }),
    decreases i,
{
    let head: Seq<u8> = bs.subrange(0, i + 1);
    if i == 0 {
        assert(head.len() == 1 && head[0] == bs[0]);
        assert(head.skip(1) =~= Seq::<u8>::empty());
        assert(bs.subrange(0, 0) =~= Seq::<u8>::empty());
        assert(encoded_path(head) == (if bs[0] == 47 {
            seq!['/']
        } else if bs[0] == 58 {
            seq![':']
        } else {
            pe_byte_text(bs[0])
        }) + encoded_path(head.skip(1)));
        assert(encoded_path(bs.subrange(0, 0)) + (if bs[0] == 47 {
            seq!['/']
        } else if bs[0] == 58 {
            seq![':']
        } else {
            pe_byte_text(bs[0])
        }) =~= encoded_path(head));
    } else {
        lemma_encoded_step(bs.skip(1), i - 1);
        assert(bs.skip(1).subrange(0, i) =~= bs.subrange(0, i + 1).skip(1));
        assert(bs.skip(1).subrange(0, i - 1) =~= bs.subrange(0, i).skip(1));
        assert(bs.skip(1)[i - 1] == bs[i]);
        let h0: Seq<char> = if bs[0] == 47 {
            seq!['/']
        } else if bs[0] == 58 {
            seq![':']
        } else {
            pe_byte_text(bs[0])
        };
        let hi: Seq<char> = if bs[i] == 47 {
            seq!['/']
        } else if bs[i] == 58 {
            seq![':']
        } else {
            pe_byte_text(bs[i])
        };
        assert(bs.subrange(0, i + 1)[0] == bs[0] && bs.subrange(0, i)[0] == bs[0]);
        assert(encoded_path(bs.subrange(0, i + 1)) == h0 + encoded_path(bs.subrange(0, i + 1).skip(1)));
        assert(encoded_path(bs.subrange(0, i)) == h0 + encoded_path(bs.subrange(0, i).skip(1)));
        assert(h0 + (encoded_path(bs.skip(1).subrange(0, i - 1)) + hi) =~= (h0 + encoded_path(
            bs.subrange(0, i).skip(1),
        )) + hi);
    }
}

} // verus!
