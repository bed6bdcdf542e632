//! The site tree that a crawl builds, and its text rendering.

use crate::site_url::SiteUrl;
use vstd::prelude::*;

verus! {

broadcast use vstd::std_specs::vec::axiom_vec_index_decreases;

/// A page and the pages found on it.
#[derive(Debug, PartialEq)]
pub struct SiteTree {
    pub current_site: SiteUrl,
    pub sub_sites: SubSites,
}

/// The children of a page: a list once the page was expanded, `Nil` before
/// (or where it was never expanded).
#[derive(Debug, PartialEq)]
pub enum SubSites {
    List(Vec<SiteTree>),
    Nil,
}

/// `n` copies of `c`.
pub open spec fn repeat_char(c: char, n: nat) -> Seq<char>
    decreases n,
{
    if n == 0 {
        Seq::empty()
    } else {
        repeat_char(c, (n - 1) as nat).push(c)
    }
}

/// The columns drawn for ancestors above the parent: a bar where the
/// ancestor has later siblings, a blank where it was the last one.
pub open spec fn pipe_prefix(last: Seq<bool>, spacing: nat) -> Seq<char>
    decreases last.len(),
{
    if last.len() == 0 {
        Seq::empty()
    } else {
        pipe_prefix(last.drop_last(), spacing) + (if last.last() {
            seq![' ']
        } else {
            seq!['│']
        }) + repeat_char(' ', spacing)
    }
}

/// The indentation of a node whose ancestors' last-sibling flags are `last`,
/// the node's own flag at the end.
pub open spec fn line_prefix(last: Seq<bool>, spacing: nat) -> Seq<char> {
    if last.len() == 0 {
        Seq::empty()
    } else {
        pipe_prefix(last.drop_last(), spacing) + (if last.last() {
            seq!['└']
        } else {
            seq!['├']
        }) + repeat_char('─', spacing)
    }
}

/// Pre-order rendering of `t`, one line per node.
pub open spec fn render(t: SiteTree, last: Seq<bool>, spacing: nat) -> Seq<char>
    decreases t, 1nat,
{
    line_prefix(last, spacing) + t.current_site@ + seq!['\n'] + match t.sub_sites {
        SubSites::List(v) => render_first(v, v.len() as nat, last, spacing),
        SubSites::Nil => Seq::empty(),
    }
}

/// The renderings of the first `n` children in `v`, the last of `v` marked
/// as such.
pub open spec fn render_first(v: Vec<SiteTree>, n: nat, last: Seq<bool>, spacing: nat) -> Seq<
    char,
>
    decreases v, n,
{
    if n == 0 || n > v.len() {
        Seq::empty()
    } else {
        render_first(v, (n - 1) as nat, last, spacing) + render(
            v[n - 1],
            last.push(n == v.len()),
            spacing,
        )
    }
}

/// Appends `n` copies of a one-character glyph.
fn push_repeated(out: &mut String, glyph: &str, n: usize)
    requires
        glyph@.len() == 1,
    ensures
        final(out)@ == old(out)@ + repeat_char(glyph@[0], n as nat),
{
    let mut k: usize = 0;
    while k < n
        invariant
            k <= n,
            glyph@.len() == 1,
            out@ == old(out)@ + repeat_char(glyph@[0], k as nat),
        decreases n - k,
    {
        out.append(glyph);
        proof {
            assert(repeat_char(glyph@[0], (k + 1) as nat) == repeat_char(glyph@[0], k as nat).push(
                glyph@[0],
            ));
            assert(out@ =~= old(out)@ + repeat_char(glyph@[0], (k + 1) as nat));
        }
        k = k + 1;
    }
}

/// Appends the indentation of a node whose flags are `last`.
fn push_prefix(out: &mut String, last: &Vec<bool>, spacing: usize)
    ensures
        final(out)@ == old(out)@ + line_prefix(last@, spacing as nat),
{
    proof {
        reveal_strlit("│");
        reveal_strlit("├");
        reveal_strlit("└");
        reveal_strlit("─");
        reveal_strlit(" ");
    }
    if last.len() == 0 {
        assert(out@ =~= old(out)@ + line_prefix(last@, spacing as nat));
        return ;
    }
    let depth = last.len() - 1;
    let mut index: usize = 0;
    while index < depth
        invariant
            depth == last@.len() - 1,
            index <= depth,
            out@ == old(out)@ + pipe_prefix(last@.take(index as int), spacing as nat),
        decreases depth - index,
    {
        proof {
            reveal_strlit("│");
            reveal_strlit(" ");
        }
        if last[index] {
            out.append(" ");
        } else {
            out.append("│");
        }
        push_repeated(out, " ", spacing);
        proof {
            let t = last@.take(index + 1);
            assert(t.drop_last() =~= last@.take(index as int));
            assert(t.last() == last@[index as int]);
        }
        index = index + 1;
        assert(out@ =~= old(out)@ + pipe_prefix(last@.take(index as int), spacing as nat));
    }
    if last[depth] {
        out.append("└");
    } else {
        out.append("├");
    }
    push_repeated(out, "─", spacing);
    assert(last@.take(depth as int) =~= last@.drop_last());
    assert(out@ =~= old(out)@ + line_prefix(last@, spacing as nat));
}

impl SiteTree {
    /// Appends the rendering of this subtree, whose ancestors' last-sibling
    /// flags are `last`, to `out`.
    fn render_into(&self, last: &mut Vec<bool>, spacing: usize, out: &mut String)
        ensures
            final(out)@ == old(out)@ + render(*self, old(last)@, spacing as nat),
            final(last)@ == old(last)@,
        decreases self,
    {
        proof {
            reveal_strlit("\n");
        }
        push_prefix(out, last, spacing);
        out.append(self.current_site.as_str());
        out.append("\n");
        match &self.sub_sites {
            SubSites::List(v) => {
                let ghost head = out@;
                let mut i: usize = 0;
                while i < v.len()
                    invariant
                        self.sub_sites == SubSites::List(*v),
                        i <= v.len(),
                        last@ == old(last)@,
                        out@ == head + render_first(*v, i as nat, last@, spacing as nat),
                    decreases v.len() - i,
                {
                    last.push(i + 1 == v.len());
                    proof {
                        assert(decreases_to!(*self => self.sub_sites));
                        assert(decreases_to!(self.sub_sites => self.sub_sites->List_0));
                    }
                    v[i].render_into(last, spacing, out);
                    last.pop();
                    assert(last@ =~= old(last)@);
                    i = i + 1;
                    assert(out@ =~= head + render_first(*v, i as nat, last@, spacing as nat));
                }
                assert(out@ =~= old(out)@ + render(*self, old(last)@, spacing as nat));
            },
            SubSites::Nil => {
                assert(out@ =~= old(out)@ + render(*self, old(last)@, spacing as nat));
            },
        }
    }

    /// The tree as text: each node's URL on a line of its own, in pre-order,
    /// drawn with branch glyphs whose horizontal filler is `spacing` wide.
    pub fn print_to_string(&self, spacing: usize) -> (r: String)
        ensures
            r@ == render(*self, Seq::empty(), spacing as nat),
    {
        let mut last: Vec<bool> = Vec::new();
        let mut out = String::new();
        self.render_into(&mut last, spacing, &mut out);
        assert(out@ =~= render(*self, Seq::empty(), spacing as nat));
        out
    }
}

} // verus!
