//! Model of terminal escape decoration. Escape sequences are zero-width:
//! they change how text is shown, never what text is shown. The central
//! predicate `veiled(t, o)` says that `t` is exactly the plain text `o`
//! with whole escape pieces inserted, which is what keeps a decorated
//! grid's column alignment intact.

use vstd::prelude::*;

use crate::text::{has_prefix, spec_replace_all};

verus! {

/// The escape character that opens every zero-width piece.
pub open spec fn esc() -> char {
    '\u{1b}'
}

/// Text that contains no escape character at all.
pub open spec fn esc_free(s: Seq<char>) -> bool {
    forall|i: int| 0 <= i < s.len() ==> s[i] != esc()
}

/// A character allowed inside a select-graphic-rendition parameter list:
/// decimal digits and the semicolon separator.
pub open spec fn is_sgr_param(c: char) -> bool {
    c == ';' || ('0' <= c && c <= '9')
}

/// A complete select-graphic-rendition sequence: `ESC [ params m`.
pub open spec fn is_sgr(s: Seq<char>) -> bool {
    &&& s.len() >= 3
    &&& s[0] == esc()
    &&& s[1] == '['
    &&& s.last() == 'm'
    &&& forall|i: int| 2 <= i < s.len() - 1 ==> is_sgr_param(#[trigger] s[i])
}

/// A complete operating-system-command piece, `ESC ] payload ESC \`, with
/// a payload that never holds an escape, a border glyph or a space, as a
/// terminal hyperlink's percent-encoded target never does.
pub open spec fn is_osc(s: Seq<char>) -> bool {
    &&& s.len() >= 4
    &&& s[0] == esc()
    &&& s[1] == ']'
    &&& s[s.len() - 2] == esc()
    &&& s.last() == '\\'
    &&& forall|i: int|
        2 <= i < s.len() - 2 ==> #[trigger] s[i] != esc() && s[i] != '│' && s[i] != ' '
}

/// One whole zero-width piece.
pub open spec fn invis_piece(s: Seq<char>) -> bool {
    is_sgr(s) || is_osc(s)
}

/// `t` is the plain text `o` with whole zero-width pieces inserted: the
/// two texts show the same characters, and only decoration differs.
pub open spec fn veiled(t: Seq<char>, o: Seq<char>) -> bool
    decreases t.len(),
{
    if t.len() == 0 {
        o.len() == 0
    } else if t[0] == esc() {
        exists|n: int|
            2 <= n <= t.len() && invis_piece(#[trigger] t.subrange(0, n)) && veiled(t.skip(n), o)
    } else {
        o.len() > 0 && t[0] == o[0] && veiled(t.skip(1), o.skip(1))
    }
}

/// What a color call yields: either the text itself (color disabled) or
/// the text between one style sequence and one reset sequence.
pub open spec fn styled(r: Seq<char>, s: Seq<char>) -> bool {
    r == s || exists|pre: Seq<char>, post: Seq<char>|
        is_sgr(pre) && is_sgr(post) && r == #[trigger] (pre + s + post)
}

/// The select-graphic-rendition sequence with the given parameter list.
pub open spec fn sgr_piece(params: Seq<char>) -> Seq<char> {
    seq![esc(), '['] + params + seq!['m']
}

/// The reset sequence that closes every color call.
pub open spec fn reset_piece() -> Seq<char> {
    sgr_piece(seq!['0'])
}

/// What one specific color call yields: the text itself (color disabled)
/// or the text between exactly this style sequence and the reset.
pub open spec fn styled_as(r: Seq<char>, s: Seq<char>, params: Seq<char>) -> bool {
    r == s || r == sgr_piece(params) + s + reset_piece()
}

/// A specific style wrap with well-formed parameters is a style wrap.
pub proof fn lemma_styled_as_styled(r: Seq<char>, s: Seq<char>, params: Seq<char>)
    requires
        styled_as(r, s, params),
        forall|i: int| 0 <= i < params.len() ==> is_sgr_param(#[trigger] params[i]),
    ensures
        styled(r, s),
{
    if r != s {
        let pre = sgr_piece(params);
        let post = reset_piece();
        assert(is_sgr(pre)) by {
            assert(pre.len() == params.len() + 3);
            assert(pre[0] == esc() && pre[1] == '[' && pre.last() == 'm');
            assert forall|i: int| 2 <= i < pre.len() - 1 implies is_sgr_param(
                #[trigger] pre[i],
            ) by {
                assert(pre[i] == params[i - 2]);
            }
        };
        assert(is_sgr(post)) by {
            assert(post.len() == 4);
            assert(post[2] == '0' && is_sgr_param('0'));
        };
        assert(r == pre + s + post);
    }
}

/// No character of a zero-width piece is a border glyph or a space, and
/// only its first character is an escape at ground position.
pub proof fn lemma_piece_chars(s: Seq<char>)
    requires
        invis_piece(s),
    ensures
        forall|i: int| 0 <= i < s.len() ==> #[trigger] s[i] != '│' && s[i] != ' ',
        s.len() >= 2,
        s[0] == esc(),
{
    assert forall|i: int| 0 <= i < s.len() implies #[trigger] s[i] != '│' && s[i] != ' ' by {
        if is_sgr(s) {
            if i == s.len() - 1 {
            } else if 2 <= i {
                assert(is_sgr_param(s[i]));
            }
        }
    }
}

/// Escape-free text is veiled over itself: nothing is inserted.
pub proof fn lemma_esc_free_veiled_self(o: Seq<char>)
    requires
        esc_free(o),
    ensures
        veiled(o, o),
    decreases o.len(),
{
    if o.len() > 0 {
        assert(o[0] != esc());
        lemma_esc_free_veiled_self(o.skip(1));
    }
}

/// Veiling composes over concatenation.
pub proof fn lemma_veiled_concat(t1: Seq<char>, o1: Seq<char>, t2: Seq<char>, o2: Seq<char>)
    requires
        veiled(t1, o1),
        veiled(t2, o2),
    ensures
        veiled(t1 + t2, o1 + o2),
    decreases t1.len(),
{
    if t1.len() == 0 {
        assert(t1 + t2 =~= t2);
        assert(o1 + o2 =~= o2);
    } else if t1[0] == esc() {
        let n = choose|n: int|
            2 <= n <= t1.len() && invis_piece(#[trigger] t1.subrange(0, n)) && veiled(
                t1.skip(n),
                o1,
            );
        lemma_veiled_concat(t1.skip(n), o1, t2, o2);
        assert((t1 + t2).subrange(0, n) =~= t1.subrange(0, n));
        assert((t1 + t2).skip(n) =~= t1.skip(n) + t2);
        assert((t1 + t2)[0] == esc());
        assert(2 <= n <= (t1 + t2).len() && invis_piece((t1 + t2).subrange(0, n)) && veiled(
            (t1 + t2).skip(n),
            o1 + o2,
        ));
    } else {
        lemma_veiled_concat(t1.skip(1), o1.skip(1), t2, o2);
        assert((t1 + t2).skip(1) =~= t1.skip(1) + t2);
        assert((o1 + o2).skip(1) =~= o1.skip(1) + o2);
        assert((t1 + t2)[0] == t1[0] && (o1 + o2)[0] == o1[0]);
    }
}

/// A single zero-width piece is veiled over nothing.
pub proof fn lemma_piece_veiled_empty(p: Seq<char>)
    requires
        invis_piece(p),
    ensures
        veiled(p, Seq::<char>::empty()),
{
    assert(p.subrange(0, p.len() as int) =~= p);
    assert(p.skip(p.len() as int) =~= Seq::<char>::empty());
    assert(veiled(p.skip(p.len() as int), Seq::<char>::empty()));
}

/// A color call's result is veiled over the escape-free text it styled.
pub proof fn lemma_styled_veiled(r: Seq<char>, s: Seq<char>)
    requires
        styled(r, s),
        esc_free(s),
    ensures
        veiled(r, s),
{
    if r == s {
        lemma_esc_free_veiled_self(s);
    } else {
        let (pre, post) = choose|pre: Seq<char>, post: Seq<char>|
            is_sgr(pre) && is_sgr(post) && r == #[trigger] (pre + s + post);
        lemma_piece_veiled_empty(pre);
        lemma_piece_veiled_empty(post);
        lemma_esc_free_veiled_self(s);
        lemma_veiled_concat(s, s, post, Seq::<char>::empty());
        assert(s + Seq::<char>::empty() =~= s);
        lemma_veiled_concat(pre, Seq::<char>::empty(), s + post, s);
        assert(Seq::<char>::empty() + s =~= s);
        assert(pre + (s + post) =~= r);
    }
}

/// An escape-free prefix of a veiled text is a prefix of the plain text,
/// and what remains stays veiled.
pub proof fn lemma_veiled_prefix(t: Seq<char>, o: Seq<char>, p: Seq<char>)
    requires
        veiled(t, o),
        has_prefix(t, p),
        esc_free(p),
    ensures
        has_prefix(o, p),
        veiled(t.skip(p.len() as int), o.skip(p.len() as int)),
    decreases p.len(),
{
    if p.len() == 0 {
        assert(o.subrange(0, 0) =~= p);
        assert(t.skip(0) =~= t);
        assert(o.skip(0) =~= o);
    } else {
        assert(t[0] == p[0]) by {
            assert(t.subrange(0, p.len() as int)[0] == t[0]);
        };
        assert(p[0] != esc());
        assert(o.len() > 0 && t[0] == o[0] && veiled(t.skip(1), o.skip(1)));
        assert(has_prefix(t.skip(1), p.skip(1))) by {
            assert(t.skip(1).subrange(0, p.len() - 1) =~= p.skip(1)) by {
                assert(forall|k: int|
                    0 <= k < p.len() - 1 ==> #[trigger] t.skip(1).subrange(0, p.len() - 1)[k]
                        == t.subrange(0, p.len() as int)[k + 1]);
            };
        };
        assert(esc_free(p.skip(1)));
        lemma_veiled_prefix(t.skip(1), o.skip(1), p.skip(1));
        assert(has_prefix(o, p)) by {
            assert(o.subrange(0, p.len() as int) =~= p) by {
                assert(forall|k: int|
                    1 <= k < p.len() ==> #[trigger] o.subrange(0, p.len() as int)[k] == o.skip(
                        1,
                    ).subrange(0, p.len() - 1)[k - 1]);
                assert(o.skip(1).subrange(0, p.len() - 1) =~= p.skip(1));
            };
        };
        assert(t.skip(1).skip(p.len() - 1) =~= t.skip(p.len() as int));
        assert(o.skip(1).skip(p.len() - 1) =~= o.skip(p.len() as int));
    }
}

/// Replacing a pattern that starts with a border glyph or a space, by a
/// replacement veiled over it, keeps the whole text veiled over the same
/// plain text: decoration by substitution never changes what is shown.
pub proof fn lemma_replace_all_veiled(t: Seq<char>, o: Seq<char>, pat: Seq<char>, repl: Seq<char>)
    requires
        veiled(t, o),
        veiled(repl, pat),
        esc_free(pat),
        pat.len() > 0,
        pat[0] == '│' || pat[0] == ' ',
    ensures
        veiled(spec_replace_all(t, pat, repl), o),
    decreases t.len(),
{
    if t.len() == 0 {
    } else if has_prefix(t, pat) {
        lemma_veiled_prefix(t, o, pat);
        lemma_replace_all_veiled(t.skip(pat.len() as int), o.skip(pat.len() as int), pat, repl);
        lemma_veiled_concat(
            repl,
            pat,
            spec_replace_all(t.skip(pat.len() as int), pat, repl),
            o.skip(pat.len() as int),
        );
        assert(pat + o.skip(pat.len() as int) =~= o);
    } else if t[0] == esc() {
        let n = choose|n: int|
            2 <= n <= t.len() && invis_piece(#[trigger] t.subrange(0, n)) && veiled(t.skip(n), o);
        lemma_piece_chars(t.subrange(0, n));
        assert forall|i: int| 0 <= i < n implies t[i] != pat[0] by {
            assert(t.subrange(0, n)[i] == t[i]);
            assert(t.subrange(0, n)[i] != '│' && t.subrange(0, n)[i] != ' ');
        };
        crate::text::lemma_replace_all_copies_prefix(t, pat, repl, n);
        lemma_replace_all_veiled(t.skip(n), o, pat, repl);
        lemma_piece_veiled_empty(t.subrange(0, n));
        lemma_veiled_concat(
            t.subrange(0, n),
            Seq::<char>::empty(),
            spec_replace_all(t.skip(n), pat, repl),
            o,
        );
        assert(Seq::<char>::empty() + o =~= o);
    } else {
        assert(o.len() > 0 && t[0] == o[0] && veiled(t.skip(1), o.skip(1)));
        lemma_replace_all_veiled(t.skip(1), o.skip(1), pat, repl);
        assert(veiled(seq![t[0]], seq![o[0]])) by {
            assert(seq![t[0]].skip(1) =~= Seq::<char>::empty());
            assert(seq![o[0]].skip(1) =~= Seq::<char>::empty());
            assert(veiled(Seq::<char>::empty(), Seq::<char>::empty()));
            assert(seq![t[0]][0] == t[0] && t[0] != esc());
        };
        lemma_veiled_concat(
            seq![t[0]],
            seq![o[0]],
            spec_replace_all(t.skip(1), pat, repl),
            o.skip(1),
        );
        assert(seq![o[0]] + o.skip(1) =~= o);
    }
}

} // verus!
