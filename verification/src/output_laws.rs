//! What the drawings say: every dependency is one edge line of the Mermaid
//! graphs, and in the movement diagram and the movement diff each item is
//! linked from its old row to the row where it stands in the new order.

use vstd::prelude::*;

use crate::mermaid::{arrows, item_edges, moved_ids};
use crate::model::Item;
use crate::render::{dec1, edges_of, edges_text, last_pos, links_svg};
use crate::text::decimal;

verus! {

/// The number of line ends in `s`.
pub open spec fn line_count(s: Seq<char>) -> nat
    decreases s.len(),
{
    if s.len() == 0 {
        0
    } else {
        line_count(s.drop_last()) + if s.last() == '\n' {
            1nat
        } else {
            0nat
        }
    }
}

/// The number of dependencies of the first `k` nodes.
pub open spec fn deps_total(deps: Seq<Vec<usize>>, k: int) -> nat
    decreases k,
{
    if k <= 0 {
        0
    } else {
        deps_total(deps, k - 1) + deps[k - 1]@.len()
    }
}

/// The Mermaid line of the edge from node `c` to node `d`.
pub open spec fn edge_line(c: nat, d: nat) -> Seq<char> {
    "  N"@ + decimal(c) + " --> N"@ + decimal(d) + "\n"@
}

proof fn lemma_line_count_concat(a: Seq<char>, b: Seq<char>)
    ensures
        line_count(a + b) == line_count(a) + line_count(b),
    decreases b.len(),
{
    if b.len() == 0 {
        assert(a + b =~= a);
    } else {
        lemma_line_count_concat(a, b.drop_last());
        assert((a + b).drop_last() =~= a + b.drop_last());
    }
}

proof fn lemma_line_count_none(s: Seq<char>)
    requires
        forall|i: int| 0 <= i < s.len() ==> s[i] != '\n',
    ensures
        line_count(s) == 0,
    decreases s.len(),
{
    if s.len() > 0 {
        lemma_line_count_none(s.drop_last());
    }
}

proof fn lemma_decimal_lines(n: nat)
    ensures
        forall|i: int| 0 <= i < decimal(n).len() ==> decimal(n)[i] != '\n',
    decreases n,
{
    if n >= 10 {
        lemma_decimal_lines(n / 10);
        assert forall|i: int| 0 <= i < decimal(n).len() implies decimal(n)[i] != '\n' by {
            if i < decimal(n / 10).len() {
                assert(decimal(n)[i] == decimal(n / 10)[i]);
            }
        }
    }
}

proof fn lemma_edge_line(c: nat, d: nat)
    ensures
        line_count(edge_line(c, d)) == 1,
{
    reveal_strlit("  N");
    reveal_strlit(" --> N");
    reveal_strlit("\n");
    let a = "  N"@ + decimal(c) + " --> N"@ + decimal(d);
    lemma_decimal_lines(c);
    lemma_decimal_lines(d);
    assert forall|i: int| 0 <= i < a.len() implies a[i] != '\n' by {
        let l1 = "  N"@.len() as int;
        let l2 = l1 + decimal(c).len();
        let l3 = l2 + " --> N"@.len();
        if i < l1 {
        } else if i < l2 {
            assert(a[i] == decimal(c)[i - l1]);
        } else if i < l3 {
        } else {
            assert(a[i] == decimal(d)[i - l3]);
        }
    }
    lemma_line_count_none(a);
    assert(edge_line(c, d) == a + seq!['\n']);
    assert((a + seq!['\n']).drop_last() =~= a);
}

/// The edges of node `c`: one line per entry of `ds`.
proof fn lemma_edges_of_count(c: nat, ds: Seq<usize>, j: int)
    requires
        0 <= j <= ds.len(),
    ensures
        line_count(edges_of(c, ds, j)) == j,
    decreases j,
{
    if j > 0 {
        lemma_edges_of_count(c, ds, j - 1);
        let prev = edges_of(c, ds, j - 1);
        let line = edge_line(c, ds[j - 1] as nat);
        assert(edges_of(c, ds, j) =~= prev + line);
        lemma_edge_line(c, ds[j - 1] as nat);
        lemma_line_count_concat(prev, line);
    }
}

/// The edges of node `c` hold the line of entry `a` of `ds`.
proof fn lemma_edges_of_has(c: nat, ds: Seq<usize>, j: int, a: int) -> (parts: (Seq<char>, Seq<char>))
    requires
        0 <= a < j <= ds.len(),
    ensures
        edges_of(c, ds, j) == parts.0 + edge_line(c, ds[a] as nat) + parts.1,
    decreases j,
{
    let prev = edges_of(c, ds, j - 1);
    let line = edge_line(c, ds[j - 1] as nat);
    assert(edges_of(c, ds, j) =~= prev + line);
    if a == j - 1 {
        assert(edges_of(c, ds, j) =~= prev + line + Seq::<char>::empty());
        (prev, Seq::<char>::empty())
    } else {
        let p = lemma_edges_of_has(c, ds, j - 1, a);
        assert(edges_of(c, ds, j) =~= p.0 + edge_line(c, ds[a] as nat) + (p.1 + line));
        (p.0, p.1 + line)
    }
}

/// The edge block of the Mermaid graphs holds one line per dependency: its
/// number of lines is the number of dependencies of the first `k` nodes.
pub proof fn law_edge_block_lines(deps: Seq<Vec<usize>>, k: int)
    requires
        0 <= k <= deps.len(),
    ensures
        line_count(edges_text(deps, k)) == deps_total(deps, k),
    decreases k,
{
    if k > 0 {
        law_edge_block_lines(deps, k - 1);
        lemma_edges_of_count((k - 1) as nat, deps[k - 1]@, deps[k - 1].len() as int);
        lemma_line_count_concat(edges_text(deps, k - 1), edges_of((k - 1) as nat, deps[k - 1]@, deps[k - 1].len() as int));
    }
}

/// The edge block of the Mermaid graphs holds the line `N{c} --> N{d}` for
/// every dependency `d` of every node `c`: it reads as `x`, that line, `y`.
pub proof fn law_edge_block_has(deps: Seq<Vec<usize>>, k: int, c: int, a: int) -> (parts: (Seq<char>, Seq<char>))
    requires
        0 <= c < k <= deps.len(),
        0 <= a < deps[c].len(),
    ensures
        edges_text(deps, k) == parts.0 + edge_line(c as nat, deps[c]@[a] as nat) + parts.1,
    decreases k,
{
    if c < k - 1 {
        let p = law_edge_block_has(deps, k - 1, c, a);
        let tail = edges_of((k - 1) as nat, deps[k - 1]@, deps[k - 1].len() as int);
        assert(edges_text(deps, k) =~= p.0 + edge_line(c as nat, deps[c]@[a] as nat) + (p.1 + tail));
        (p.0, p.1 + tail)
    } else {
        let ds = deps[c]@;
        let e = edges_of(c as nat, ds, ds.len() as int);
        let q = lemma_edges_of_has(c as nat, ds, ds.len() as int, a);
        let pre = edges_text(deps, k - 1);
        assert(edges_text(deps, k) =~= pre + e);
        assert(edges_text(deps, k) =~= (pre + q.0) + edge_line(c as nat, deps[c]@[a] as nat) + q.1);
        (pre + q.0, q.1)
    }
}

/// The model graphs draw the same edge block as a plan with the items'
/// dependency lists.
pub proof fn law_item_edges(items: Seq<Item>, k: int)
    requires
        0 <= k <= items.len(),
    ensures
        item_edges(items, k) == edges_text(items.map_values(|it: Item| it.deps), k),
    decreases k,
{
    if k > 0 {
        law_item_edges(items, k - 1);
    }
}

/// Among distinct entries, the last position of `c` is the one that holds it.
proof fn lemma_last_pos(o: Seq<usize>, c: int, p: int, k: int)
    requires
        o.no_duplicates(),
        0 <= p < k <= o.len(),
        o[p] as int == c,
    ensures
        last_pos(o, c, k) == p,
    decreases k,
{
    if k - 1 > p {
        assert(o[k - 1] != o[p]);
        lemma_last_pos(o, c, p, k - 1);
    }
}

/// In the HTML movement diagram the curve of item `c` runs from row `c`
/// of the BEFORE column to the row `p` where `c` stands in the new order
/// (`after[p] == c`): it is the `c`-th curve drawn, from height `85 + 30c`
/// to height `85 + 30p`, red exactly when the item moved.
pub proof fn law_html_curve_to_new_row(o: Seq<usize>, c: int, p: int)
    requires
        o.no_duplicates(),
        0 <= p < o.len(),
        0 <= c,
        o[p] as int == c,
    ensures
        links_svg(o, c + 1) == links_svg(o, c) + "<path d=\"M344.0,"@ + dec1((85 + 30 * c) as nat) + " C444.0,"@ + dec1(
            (85 + 30 * c) as nat,
        ) + " 444.0,"@ + dec1((85 + 30 * p) as nat) + " 544.0,"@ + dec1((85 + 30 * p) as nat) + "\" fill=\"none\" stroke=\""@
            + if c != p {
            "#d83933\" stroke-width=\"1.8\" opacity=\"0.95"@
        } else {
            "#9aa0a6\" stroke-width=\"1\" opacity=\"0.5"@
        } + "\"/>\n"@,
        forall|k: int| c + 1 <= k ==> #[trigger] links_svg(o, k).take(links_svg(o, c + 1).len() as int) == links_svg(o, c + 1),
{
    lemma_last_pos(o, c, p, o.len() as int);
    assert forall|k: int| c + 1 <= k implies #[trigger] links_svg(o, k).take(links_svg(o, c + 1).len() as int) == links_svg(o, c + 1) by {
        lemma_links_prefix(o, c + 1, k);
    }
}

proof fn lemma_links_prefix(o: Seq<usize>, j: int, k: int)
    requires
        0 <= j <= k,
    ensures
        links_svg(o, j).len() <= links_svg(o, k).len(),
        links_svg(o, k).take(links_svg(o, j).len() as int) == links_svg(o, j),
    decreases k - j,
{
    if j < k {
        lemma_links_prefix(o, j, k - 1);
        let a = links_svg(o, k - 1);
        assert(links_svg(o, k).take(links_svg(o, j).len() as int) =~= a.take(links_svg(o, j).len() as int));
    } else {
        assert(links_svg(o, k).take(links_svg(o, k).len() as int) =~= links_svg(o, k));
    }
}

/// In the Mermaid movement diff, item `i` of the BEFORE column is linked to
/// the node `A{p}` of the AFTER column where it stands in the new order
/// (`order[p] == i`), whose label is its own; and it is marked as moved, in
/// both columns, exactly when `p != i`.
pub proof fn law_diff_links_new_slot(items: Seq<Item>, o: Seq<usize>, i: int, p: int)
    requires
        o.no_duplicates(),
        0 <= p < o.len(),
        0 <= i < items.len(),
        o[p] as int == i,
    ensures
        arrows(o, i + 1) == arrows(o, i) + "  B"@ + decimal(i as nat) + " -.-> A"@ + decimal(p as nat) + "\n"@,
        moved_ids(o, i + 1) == moved_ids(o, i) + if p != i {
            seq!["B"@ + decimal(i as nat), "A"@ + decimal(p as nat)]
        } else {
            Seq::<Seq<char>>::empty()
        },
        items[o[p] as int].display@ == items[i].display@,
{
    lemma_last_pos(o, i, p, o.len() as int);
}

} // verus!
