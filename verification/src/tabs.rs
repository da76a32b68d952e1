//! Tab expansion against visual tab stops.
//!
//! Each tab found at visual column `c` becomes `tab_width - (c mod
//! tab_width)` spaces; every other character advances the column by
//! its visual width. Expansion runs before block detection so that
//! column arithmetic over a diagram never meets a tab.

use vstd::prelude::*;
use crate::chars::spec_char_width;
use crate::text::spaces;

verus! {

/// The expansion of `s` when it starts at visual column `col`.
pub open spec fn expand_tabs_from(s: Seq<char>, tw: int, col: int) -> Seq<char>
    decreases s.len(),
{
    if s.len() == 0 {
        Seq::empty()
    } else if s.first() == '\t' {
        let n = tw - (col % tw);
        spaces(n) + expand_tabs_from(s.drop_first(), tw, col + n)
    } else {
        seq![s.first()] + expand_tabs_from(s.drop_first(), tw, col + spec_char_width(s.first()))
    }
}

/// The expansion of a whole line.
pub open spec fn expand_tabs_s(s: Seq<char>, tw: int) -> Seq<char> {
    expand_tabs_from(s, tw, 0)
}

/// A line without tabs expands to itself.
pub proof fn lemma_expand_tabs_no_tab(s: Seq<char>, tw: int, col: int)
    requires
        forall|i: int| 0 <= i < s.len() ==> s[i] != '\t',
    ensures
        expand_tabs_from(s, tw, col) == s,
    decreases s.len(),
{
    if s.len() > 0 {
        assert(s[0] != '\t');
        lemma_expand_tabs_no_tab(s.drop_first(), tw, col + spec_char_width(s.first()));
        assert(seq![s.first()] + s.drop_first() =~= s);
    }
}

/// Expansion never introduces a tab.
pub proof fn lemma_expand_tabs_tab_free(s: Seq<char>, tw: int, col: int)
    requires
        tw >= 1,
    ensures
        forall|i: int|
            0 <= i < expand_tabs_from(s, tw, col).len() ==> expand_tabs_from(s, tw, col)[i] != '\t',
    decreases s.len(),
{
    if s.len() > 0 {
        let r = expand_tabs_from(s, tw, col);
        if s.first() == '\t' {
            let n = tw - (col % tw);
            let rest = expand_tabs_from(s.drop_first(), tw, col + n);
            lemma_expand_tabs_tab_free(s.drop_first(), tw, col + n);
            assert forall|i: int| 0 <= i < r.len() implies r[i] != '\t' by {
                if i < spaces(n).len() {
                    assert(r[i] == ' ');
                } else {
                    assert(r[i] == rest[i - spaces(n).len()]);
                }
            }
        } else {
            let rest = expand_tabs_from(s.drop_first(), tw, col + spec_char_width(s.first()));
            lemma_expand_tabs_tab_free(s.drop_first(), tw, col + spec_char_width(s.first()));
            assert forall|i: int| 0 <= i < r.len() implies r[i] != '\t' by {
                if i == 0 {
                    assert(r[0] == s.first());
                } else {
                    assert(r[i] == rest[i - 1]);
                }
            }
        }
    }
}

/// Expand the tabs of one line's characters, starting at column 0.
pub fn expand_tabs_chars(v: &Vec<char>, tab_width: usize) -> (r: Vec<char>)
    requires
        1 <= tab_width <= 16,
        v@.len() <= usize::MAX / 32,
    ensures
        r@ == expand_tabs_s(v@, tab_width as int),
{
    let mut out: Vec<char> = Vec::new();
    let mut col: usize = 0;
    let mut i: usize = 0;
    proof {
        assert(v@.subrange(0, v@.len() as int) =~= v@);
        assert(v@.subrange(0, 0) =~= Seq::<char>::empty());
    }
    while i < v.len()
        invariant
            i <= v@.len(),
            v@.len() <= usize::MAX / 32,
            1 <= tab_width <= 16,
            col <= 16 * i,
            expand_tabs_s(v@, tab_width as int) == out@ + expand_tabs_from(
                v@.subrange(i as int, v@.len() as int),
                tab_width as int,
                col as int,
            ),
        decreases v@.len() - i,
    {
        let ghost rest = v@.subrange(i as int, v@.len() as int);
        let ghost out0 = out@;
        proof {
            assert(rest.first() == v@[i as int]);
            assert(rest.drop_first() =~= v@.subrange(i + 1, v@.len() as int));
        }
        let c = v[i];
        if c == '\t' {
            let n = tab_width - (col % tab_width);
            crate::text::push_spaces(&mut out, n);
            proof {
                assert(out0 + (spaces(n as int) + expand_tabs_from(
                    rest.drop_first(),
                    tab_width as int,
                    col + n,
                )) =~= out@ + expand_tabs_from(rest.drop_first(), tab_width as int, col + n));
            }
            col = col + n;
        } else {
            out.push(c);
            proof {
                assert(out0 + (seq![c] + expand_tabs_from(
                    rest.drop_first(),
                    tab_width as int,
                    col + spec_char_width(c),
                )) =~= out@ + expand_tabs_from(
                    rest.drop_first(),
                    tab_width as int,
                    col + spec_char_width(c),
                ));
            }
            col = col + crate::chars::char_width(c);
        }
        i = i + 1;
    }
    out
}

/// Expand tabs to spaces, accounting for character visual width: tab
/// stops are visual columns, so CJK and other wide characters advance
/// the column by two.
pub fn expand_tabs(line: &str, tab_width: usize) -> (r: String)
    requires
        1 <= tab_width <= 16,
        line@.len() <= usize::MAX / 32,
    ensures
        r@ == expand_tabs_s(line@, tab_width as int),
{
    let v = crate::text::str_to_chars(line);
    let out = expand_tabs_chars(&v, tab_width);
    crate::text::chars_to_string(&out)
}


/// Expansion grows a line by at most the tab width per character.
pub proof fn lemma_expand_len(s: Seq<char>, tw: int, col: int)
    requires
        1 <= tw <= 16,
        col >= 0,
    ensures
        expand_tabs_from(s, tw, col).len() <= 16 * s.len(),
    decreases s.len(),
{
    if s.len() > 0 {
        if s.first() == '\t' {
            let n = tw - (col % tw);
            assert(0 <= col % tw < tw);
            lemma_expand_len(s.drop_first(), tw, col + n);
        } else {
            lemma_expand_len(s.drop_first(), tw, col + spec_char_width(s.first()));
        }
    }
}
} // verus!
